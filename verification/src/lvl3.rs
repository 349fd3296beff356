//! Level 3: matrix-matrix routines.
//!
//! The argument checks of `gemm`, and what they guarantee: once the check
//! passes, every element of `A`, `B` and `C` that the routine touches lies
//! inside its buffer.

use crate::error::BlasError;
use crate::lvl1::{folds_to, is_pair_fold_trace};
use crate::lvl2::op_row;
use crate::stride::{
    lemma_matrix_index_in_bounds, lemma_matrix_index_injective, matrix_buffer_len, matrix_index,
    matrix_len, op_index,
};
use vstd::prelude::*;

verus! {

/// The stored shape `(rows, cols)` of an operand that takes part in the
/// product as a `rows_used` by `cols_used` matrix: the shape itself, or its
/// transpose when the operand is stored transposed.
pub open spec fn stored_shape(rows_used: int, cols_used: int, is_trans: bool) -> (int, int) {
    if is_trans {
        (cols_used, rows_used)
    } else {
        (rows_used, cols_used)
    }
}

/// A stored operand fits: its leading dimension is nonzero and no smaller
/// than its stored rows, and its buffer holds the stored matrix.
pub open spec fn operand_fits(shape: (int, int), ld: int, len: int) -> bool {
    &&& ld != 0 && ld >= shape.0
    &&& len >= matrix_len(shape.0, shape.1, ld)
}

/// The arguments of `C = alpha * op(A) * op(B) + beta * C` with `op(A)`
/// `m` by `k`, `op(B)` `k` by `n` and `C` `m` by `n`, all nonempty, that
/// `gemm` accepts.
pub open spec fn gemm_args_ok(
    m: int,
    n: int,
    k: int,
    lda: int,
    a_len: int,
    ldb: int,
    b_len: int,
    ldc: int,
    c_len: int,
    is_trans_a: bool,
    is_trans_b: bool,
) -> bool {
    &&& m > 0 && n > 0 && k > 0
    &&& operand_fits(stored_shape(m, k, is_trans_a), lda, a_len)
    &&& operand_fits(stored_shape(k, n, is_trans_b), ldb, b_len)
    &&& operand_fits((m, n), ldc, c_len)
}

/// Checks the arguments of `gemm`. With a zero dimension there is nothing to
/// compute and the answer is `Ok(false)` whatever the other arguments are;
/// otherwise the leading dimensions of `A`, `B` and `C` are checked in turn,
/// then their buffers, and `Ok(true)` means the product can be formed.
pub fn check_gemm(
    m: usize,
    n: usize,
    k: usize,
    lda: usize,
    a_len: usize,
    ldb: usize,
    b_len: usize,
    ldc: usize,
    c_len: usize,
    is_trans_a: bool,
    is_trans_b: bool,
) -> (res: Result<bool, BlasError>)
    ensures
        ({
            let sa = stored_shape(m as int, k as int, is_trans_a);
            let sb = stored_shape(k as int, n as int, is_trans_b);
            let nonempty = m > 0 && n > 0 && k > 0;
            let lda_ok = nonempty && lda != 0 && lda >= sa.0;
            let ldb_ok = lda_ok && ldb != 0 && ldb >= sb.0;
            let ldc_ok = ldb_ok && ldc != 0 && ldc >= m;
            let a_ok = ldc_ok && a_len >= matrix_len(sa.0, sa.1, lda as int);
            let b_ok = a_ok && b_len >= matrix_len(sb.0, sb.1, ldb as int);
            &&& res == Ok::<bool, BlasError>(false) <==> !nonempty
            &&& res == Ok::<bool, BlasError>(true) <==> gemm_args_ok(
                m as int,
                n as int,
                k as int,
                lda as int,
                a_len as int,
                ldb as int,
                b_len as int,
                ldc as int,
                c_len as int,
                is_trans_a,
                is_trans_b,
            )
            &&& res == Err::<bool, BlasError>(BlasError::BadLda) <==> (nonempty && !lda_ok)
            &&& res == Err::<bool, BlasError>(BlasError::BadLdb) <==> (lda_ok && !ldb_ok)
            &&& res == Err::<bool, BlasError>(BlasError::BadLdc) <==> (ldb_ok && !ldc_ok)
            &&& res == Err::<bool, BlasError>(BlasError::ATooShort) <==> (ldc_ok && !a_ok)
            &&& res == Err::<bool, BlasError>(BlasError::BTooShort) <==> (a_ok && !b_ok)
            &&& res == Err::<bool, BlasError>(BlasError::CTooShort) <==> (b_ok && c_len
                < matrix_len(m as int, n as int, ldc as int))
        }),
{
    if m == 0 || n == 0 || k == 0 {
        return Ok(false);
    }
    let (a_rows, a_cols) = if is_trans_a {
        (k, m)
    } else {
        (m, k)
    };
    let (b_rows, b_cols) = if is_trans_b {
        (n, k)
    } else {
        (k, n)
    };
    if lda == 0 || lda < a_rows {
        return Err(BlasError::BadLda);
    }
    if ldb == 0 || ldb < b_rows {
        return Err(BlasError::BadLdb);
    }
    if ldc == 0 || ldc < m {
        return Err(BlasError::BadLdc);
    }
    match matrix_buffer_len(a_rows, a_cols, lda) {
        Some(need) => {
            if a_len < need {
                return Err(BlasError::ATooShort);
            }
        },
        None => {
            return Err(BlasError::ATooShort);
        },
    }
    match matrix_buffer_len(b_rows, b_cols, ldb) {
        Some(need) => {
            if b_len < need {
                return Err(BlasError::BTooShort);
            }
        },
        None => {
            return Err(BlasError::BTooShort);
        },
    }
    match matrix_buffer_len(m, n, ldc) {
        Some(need) => {
            if c_len < need {
                return Err(BlasError::CTooShort);
            }
        },
        None => {
            return Err(BlasError::CTooShort);
        },
    }
    Ok(true)
}

/// Arguments that `gemm` accepts keep every access inside its buffer: each
/// element `(i, p)` of `op(A)`, `(p, j)` of `op(B)` and `(i, j)` of `C`,
/// read through the stored layout of its operand.
pub proof fn lemma_gemm_accesses_in_bounds(
    m: int,
    n: int,
    k: int,
    lda: int,
    a_len: int,
    ldb: int,
    b_len: int,
    ldc: int,
    c_len: int,
    is_trans_a: bool,
    is_trans_b: bool,
)
    requires
        gemm_args_ok(m, n, k, lda, a_len, ldb, b_len, ldc, c_len, is_trans_a, is_trans_b),
    ensures
        forall|i: int, p: int|
            0 <= i < m && 0 <= p < k ==> 0 <= #[trigger] op_index(i, p, lda, is_trans_a) < a_len,
        forall|p: int, j: int|
            0 <= p < k && 0 <= j < n ==> 0 <= #[trigger] op_index(p, j, ldb, is_trans_b) < b_len,
        forall|i: int, j: int|
            0 <= i < m && 0 <= j < n ==> 0 <= #[trigger] matrix_index(i, j, ldc) < c_len,
{
    let sa = stored_shape(m, k, is_trans_a);
    let sb = stored_shape(k, n, is_trans_b);
    assert forall|i: int, p: int| 0 <= i < m && 0 <= p < k implies 0 <= #[trigger] op_index(
        i,
        p,
        lda,
        is_trans_a,
    ) < a_len by {
        if is_trans_a {
            lemma_matrix_index_in_bounds(sa.0, sa.1, lda, a_len, p, i);
        } else {
            lemma_matrix_index_in_bounds(sa.0, sa.1, lda, a_len, i, p);
        }
    }
    assert forall|p: int, j: int| 0 <= p < k && 0 <= j < n implies 0 <= #[trigger] op_index(
        p,
        j,
        ldb,
        is_trans_b,
    ) < b_len by {
        if is_trans_b {
            lemma_matrix_index_in_bounds(sb.0, sb.1, ldb, b_len, j, p);
        } else {
            lemma_matrix_index_in_bounds(sb.0, sb.1, ldb, b_len, p, j);
        }
    }
    assert forall|i: int, j: int| 0 <= i < m && 0 <= j < n implies 0 <= #[trigger] matrix_index(
        i,
        j,
        ldc,
    ) < c_len by {
        lemma_matrix_index_in_bounds(m, n, ldc, c_len, i, j);
    }
}

/// Column `j` of `op(B)`, `len` elements long, where `op(B)` is `B` or, when
/// `is_trans`, its transpose.
pub open spec fn op_col<T>(b: Seq<T>, ldb: int, is_trans: bool, j: int, len: int) -> Seq<T> {
    Seq::new(len as nat, |p: int| b[op_index(p, j, ldb, is_trans)])
}

/// Element `(r, c)` of `C` comes before element `(i, j)` in column-major
/// order, the order in which `gemm_accumulate` visits them.
pub open spec fn visited_before(r: int, c: int, i: int, j: int) -> bool {
    c < j || (c == j && r < i)
}

/// Every position of `C`'s buffer that no element visited before `(i, j)`
/// occupies keeps its old value.
pub open spec fn untouched_before<T>(
    before: Seq<T>,
    after: Seq<T>,
    m: int,
    n: int,
    ldc: int,
    i: int,
    j: int,
) -> bool {
    &&& after.len() == before.len()
    &&& forall|q: int|
        0 <= q < before.len() && (forall|r: int, c: int|
            0 <= r < m && 0 <= c < n && visited_before(r, c, i, j) ==> #[trigger] matrix_index(
                r,
                c,
                ldc,
            ) != q) ==> after[q] == before[q]
}

/// Every position of `C`'s buffer that no element of the `m` by `n` matrix
/// occupies (the padding rows between `m` and `ldc`, and anything after the
/// last column) keeps its old value.
pub open spec fn untouched_outside_matrix<T>(before: Seq<T>, after: Seq<T>, m: int, n: int, ldc: int) -> bool {
    untouched_before(before, after, m, n, ldc, 0, n)
}

/// Writing element `(i, j)` of `C`: it takes the new value, every other
/// element keeps its value, and the positions that nothing up to `(i, j)`
/// occupies keep their old values.
proof fn lemma_write_cell<T>(
    before: Seq<T>,
    mid: Seq<T>,
    after: Seq<T>,
    m: int,
    n: int,
    ldc: int,
    i: int,
    j: int,
    v: T,
)
    requires
        0 <= i < m,
        0 <= j < n,
        ldc >= m,
        before.len() >= matrix_len(m, n, ldc),
        untouched_before(before, mid, m, n, ldc, i, j),
        after == mid.update(matrix_index(i, j, ldc), v),
    ensures
        untouched_before(before, after, m, n, ldc, i + 1, j),
        after[matrix_index(i, j, ldc)] == v,
        forall|r: int, c: int|
            0 <= r < m && 0 <= c < n && (r != i || c != j) ==> after[#[trigger] matrix_index(r, c, ldc)]
                == mid[matrix_index(r, c, ldc)],
{
    lemma_matrix_index_in_bounds(m, n, ldc, before.len() as int, i, j);
    assert forall|r: int, c: int|
        0 <= r < m && 0 <= c < n && (r != i || c != j) implies after[#[trigger] matrix_index(r, c, ldc)]
        == mid[matrix_index(r, c, ldc)] by {
        lemma_matrix_index_in_bounds(m, n, ldc, before.len() as int, r, c);
        if matrix_index(r, c, ldc) == matrix_index(i, j, ldc) {
            lemma_matrix_index_injective(m, ldc, r, c, i, j);
        }
    }
}

/// An element not visited yet still holds its old value.
proof fn lemma_cell_not_visited<T>(before: Seq<T>, now: Seq<T>, m: int, n: int, ldc: int, i: int, j: int)
    requires
        0 <= i < m,
        0 <= j < n,
        ldc >= m,
        before.len() >= matrix_len(m, n, ldc),
        untouched_before(before, now, m, n, ldc, i, j),
    ensures
        now[matrix_index(i, j, ldc)] == before[matrix_index(i, j, ldc)],
{
    lemma_matrix_index_in_bounds(m, n, ldc, before.len() as int, i, j);
    assert forall|r: int, c: int|
        0 <= r < m && 0 <= c < n && visited_before(r, c, i, j) implies #[trigger] matrix_index(
        r,
        c,
        ldc,
    ) != matrix_index(i, j, ldc) by {
        if matrix_index(r, c, ldc) == matrix_index(i, j, ldc) {
            lemma_matrix_index_injective(m, ldc, r, c, i, j);
        }
    }
}

/// Finishing column `j` is starting column `j + 1`.
proof fn lemma_next_column<T>(before: Seq<T>, now: Seq<T>, m: int, n: int, ldc: int, j: int)
    requires
        untouched_before(before, now, m, n, ldc, m, j),
    ensures
        untouched_before(before, now, m, n, ldc, 0, j + 1),
{
    assert forall|q: int|
        0 <= q < before.len() && (forall|r: int, c: int|
            0 <= r < m && 0 <= c < n && visited_before(r, c, 0, j + 1) ==> #[trigger] matrix_index(
                r,
                c,
                ldc,
            ) != q) implies now[q] == before[q] by {
        assert forall|r: int, c: int|
            0 <= r < m && 0 <= c < n && visited_before(r, c, m, j) implies #[trigger] matrix_index(
            r,
            c,
            ldc,
        ) != q by {
            assert(visited_before(r, c, 0, j + 1));
        }
    }
}

/// The traversal of `gemm`: each element `(i, j)` of `C` becomes the fold of
/// `f` over row `i` of `op(A)` paired with column `j` of `op(B)`, starting
/// from the old element `(i, j)` of `C`. With `f(acc, a, b) = acc + alpha *
/// a * b` this is `C = C + alpha * op(A) * op(B)`. Every position of `C`'s
/// buffer outside the `m` by `n` matrix is unchanged.
pub fn gemm_accumulate<T: Copy, F: Fn(T, T, T) -> T>(
    m: usize,
    n: usize,
    k: usize,
    a: &[T],
    lda: usize,
    b: &[T],
    ldb: usize,
    c: &mut [T],
    ldc: usize,
    is_trans_a: bool,
    is_trans_b: bool,
    f: F,
)
    requires
        gemm_args_ok(
            m as int,
            n as int,
            k as int,
            lda as int,
            a@.len() as int,
            ldb as int,
            b@.len() as int,
            ldc as int,
            old(c)@.len() as int,
            is_trans_a,
            is_trans_b,
        ),
        forall|acc: T, u: T, v: T| call_requires(f, (acc, u, v)),
    ensures
        forall|i: int, j: int|
            0 <= i < m && 0 <= j < n ==> folds_to(
                f,
                old(c)@[#[trigger] matrix_index(i, j, ldc as int)],
                op_row(a@, lda as int, is_trans_a, i, k as int),
                op_col(b@, ldb as int, is_trans_b, j, k as int),
                final(c)@[matrix_index(i, j, ldc as int)],
            ),
        untouched_outside_matrix(old(c)@, final(c)@, m as int, n as int, ldc as int),
{
    let a_len = a.len();
    let b_len = b.len();
    let c_len = c.len();
    proof {
        lemma_gemm_accesses_in_bounds(
            m as int,
            n as int,
            k as int,
            lda as int,
            a_len as int,
            ldb as int,
            b_len as int,
            ldc as int,
            c_len as int,
            is_trans_a,
            is_trans_b,
        );
    }
    let mut j: usize = 0;
    while j < n
        invariant
            j <= n,
            a_len == a@.len(),
            b_len == b@.len(),
            c_len == old(c)@.len(),
            gemm_args_ok(
                m as int,
                n as int,
                k as int,
                lda as int,
                a_len as int,
                ldb as int,
                b_len as int,
                ldc as int,
                c_len as int,
                is_trans_a,
                is_trans_b,
            ),
            forall|i: int, p: int|
                0 <= i < m && 0 <= p < k ==> 0 <= #[trigger] op_index(i, p, lda as int, is_trans_a)
                    < a_len,
            forall|p: int, jj: int|
                0 <= p < k && 0 <= jj < n ==> 0 <= #[trigger] op_index(p, jj, ldb as int, is_trans_b)
                    < b_len,
            forall|acc: T, u: T, v: T| call_requires(f, (acc, u, v)),
            untouched_before(old(c)@, c@, m as int, n as int, ldc as int, 0, j as int),
            forall|r: int, cc: int|
                0 <= r < m && 0 <= cc < n && visited_before(r, cc, 0, j as int) ==> folds_to(
                    f,
                    old(c)@[#[trigger] matrix_index(r, cc, ldc as int)],
                    op_row(a@, lda as int, is_trans_a, r, k as int),
                    op_col(b@, ldb as int, is_trans_b, cc, k as int),
                    c@[matrix_index(r, cc, ldc as int)],
                ),
        decreases n - j,
    {
        let mut i: usize = 0;
        while i < m
            invariant
                i <= m,
                j < n,
                a_len == a@.len(),
                b_len == b@.len(),
                c_len == old(c)@.len(),
                gemm_args_ok(
                    m as int,
                    n as int,
                    k as int,
                    lda as int,
                    a_len as int,
                    ldb as int,
                    b_len as int,
                    ldc as int,
                    c_len as int,
                    is_trans_a,
                    is_trans_b,
                ),
                forall|i: int, p: int|
                    0 <= i < m && 0 <= p < k ==> 0 <= #[trigger] op_index(i, p, lda as int, is_trans_a)
                        < a_len,
                forall|p: int, jj: int|
                    0 <= p < k && 0 <= jj < n ==> 0 <= #[trigger] op_index(p, jj, ldb as int, is_trans_b)
                        < b_len,
                forall|acc: T, u: T, v: T| call_requires(f, (acc, u, v)),
                untouched_before(old(c)@, c@, m as int, n as int, ldc as int, i as int, j as int),
                forall|r: int, cc: int|
                    0 <= r < m && 0 <= cc < n && visited_before(r, cc, i as int, j as int)
                        ==> folds_to(
                        f,
                        old(c)@[#[trigger] matrix_index(r, cc, ldc as int)],
                        op_row(a@, lda as int, is_trans_a, r, k as int),
                        op_col(b@, ldb as int, is_trans_b, cc, k as int),
                        c@[matrix_index(r, cc, ldc as int)],
                    ),
            decreases m - i,
        {
            proof {
                lemma_cell_not_visited(old(c)@, c@, m as int, n as int, ldc as int, i as int, j as int);
                lemma_matrix_index_in_bounds(m as int, n as int, ldc as int, c_len as int, i as int, j as int);
            }
            let ic = i + j * ldc;
            let ghost row = op_row(a@, lda as int, is_trans_a, i as int, k as int);
            let ghost col = op_col(b@, ldb as int, is_trans_b, j as int, k as int);
            let ghost init = c@[ic as int];
            let mut acc = c[ic];
            let ghost mut accs: Seq<T> = seq![acc];
            let mut p: usize = 0;
            while p < k
                invariant
                    p <= k,
                    i < m,
                    j < n,
                    a_len == a@.len(),
                    b_len == b@.len(),
                    forall|i: int, p: int|
                        0 <= i < m && 0 <= p < k ==> 0 <= #[trigger] op_index(i, p, lda as int, is_trans_a)
                            < a_len,
                    forall|p: int, jj: int|
                        0 <= p < k && 0 <= jj < n ==> 0 <= #[trigger] op_index(p, jj, ldb as int, is_trans_b)
                            < b_len,
                    forall|acc: T, u: T, v: T| call_requires(f, (acc, u, v)),
                    row == op_row(a@, lda as int, is_trans_a, i as int, k as int),
                    col == op_col(b@, ldb as int, is_trans_b, j as int, k as int),
                    accs.len() == p + 1,
                    accs[0] == init,
                    accs.last() == acc,
                    forall|q: int|
                        0 <= q < p ==> call_ensures(f, (#[trigger] accs[q], row[q], col[q]), accs[q + 1]),
                decreases k - p,
            {
                proof {
                    assert(0 <= op_index(i as int, p as int, lda as int, is_trans_a) < a_len);
                    assert(0 <= op_index(p as int, j as int, ldb as int, is_trans_b) < b_len);
                }
                let ia = if is_trans_a {
                    p + i * lda
                } else {
                    i + p * lda
                };
                let ib = if is_trans_b {
                    j + p * ldb
                } else {
                    p + j * ldb
                };
                acc = f(acc, a[ia], b[ib]);
                proof {
                    accs = accs.push(acc);
                }
                p += 1;
            }
            proof {
                assert(is_pair_fold_trace(f, init, row, col, accs));
            }
            let ghost mid = c@;
            c[ic] = acc;
            proof {
                lemma_write_cell(old(c)@, mid, c@, m as int, n as int, ldc as int, i as int, j as int, acc);
                assert(folds_to(f, init, row, col, acc));
            }
            i += 1;
        }
        proof {
            lemma_next_column(old(c)@, c@, m as int, n as int, ldc as int, j as int);
        }
        j += 1;
    }
}

/// The element-wise pass over `C` that `gemm` makes before the product
/// (its scaling by `beta`): each element `(i, j)` of the `m` by `n` matrix
/// becomes `f` of its old value, column by column. Every position of `C`'s
/// buffer outside the matrix (the padding rows between `m` and `ldc`, and
/// anything after the last column) is unchanged.
pub fn map_matrix_in_place<T: Copy, F: Fn(T) -> T>(m: usize, n: usize, c: &mut [T], ldc: usize, f: F)
    requires
        ldc >= m,
        old(c)@.len() >= matrix_len(m as int, n as int, ldc as int),
        forall|v: T| call_requires(f, (v,)),
    ensures
        forall|i: int, j: int|
            0 <= i < m && 0 <= j < n ==> call_ensures(
                f,
                (old(c)@[#[trigger] matrix_index(i, j, ldc as int)],),
                final(c)@[matrix_index(i, j, ldc as int)],
            ),
        untouched_outside_matrix(old(c)@, final(c)@, m as int, n as int, ldc as int),
{
    let c_len = c.len();
    let mut j: usize = 0;
    while j < n
        invariant
            j <= n,
            ldc >= m,
            c_len == old(c)@.len(),
            c_len >= matrix_len(m as int, n as int, ldc as int),
            forall|v: T| call_requires(f, (v,)),
            untouched_before(old(c)@, c@, m as int, n as int, ldc as int, 0, j as int),
            forall|r: int, cc: int|
                0 <= r < m && 0 <= cc < n && visited_before(r, cc, 0, j as int) ==> call_ensures(
                    f,
                    (old(c)@[#[trigger] matrix_index(r, cc, ldc as int)],),
                    c@[matrix_index(r, cc, ldc as int)],
                ),
        decreases n - j,
    {
        let mut i: usize = 0;
        while i < m
            invariant
                i <= m,
                j < n,
                ldc >= m,
                c_len == old(c)@.len(),
                c_len >= matrix_len(m as int, n as int, ldc as int),
                forall|v: T| call_requires(f, (v,)),
                untouched_before(old(c)@, c@, m as int, n as int, ldc as int, i as int, j as int),
                forall|r: int, cc: int|
                    0 <= r < m && 0 <= cc < n && visited_before(r, cc, i as int, j as int)
                        ==> call_ensures(
                        f,
                        (old(c)@[#[trigger] matrix_index(r, cc, ldc as int)],),
                        c@[matrix_index(r, cc, ldc as int)],
                    ),
            decreases m - i,
        {
            proof {
                lemma_cell_not_visited(old(c)@, c@, m as int, n as int, ldc as int, i as int, j as int);
                lemma_matrix_index_in_bounds(m as int, n as int, ldc as int, c_len as int, i as int, j as int);
            }
            let ic = i + j * ldc;
            let v = f(c[ic]);
            let ghost mid = c@;
            c[ic] = v;
            proof {
                lemma_write_cell(old(c)@, mid, c@, m as int, n as int, ldc as int, i as int, j as int, v);
            }
            i += 1;
        }
        proof {
            lemma_next_column(old(c)@, c@, m as int, n as int, ldc as int, j as int);
        }
        j += 1;
    }
}

/// What the matrix traversals leave alone, in terms of buffer positions:
/// the `m` by `n` matrix occupies, in each of its `n` columns of `ldc`
/// positions, the first `m`; a position in the padding rows of a column
/// (`q % ldc >= m`) or past the last column (`q >= n * ldc`) keeps its old
/// value.
pub proof fn lemma_untouched_matrix_positions<T>(
    before: Seq<T>,
    after: Seq<T>,
    m: int,
    n: int,
    ldc: int,
    q: int,
)
    requires
        0 <= m <= ldc,
        ldc > 0,
        n >= 0,
        untouched_outside_matrix(before, after, m, n, ldc),
        0 <= q < before.len(),
        q % ldc >= m || q >= n * ldc,
    ensures
        after.len() == before.len(),
        after[q] == before[q],
{
    assert forall|r: int, c: int|
        0 <= r < m && 0 <= c < n && visited_before(r, c, 0, n) implies #[trigger] matrix_index(
        r,
        c,
        ldc,
    ) != q by {
        if matrix_index(r, c, ldc) == q {
            vstd::arithmetic::div_mod::lemma_fundamental_div_mod_converse(q, ldc, c, r);
            vstd::arithmetic::mul::lemma_mul_inequality(c, n - 1, ldc);
            vstd::arithmetic::mul::lemma_mul_is_distributive_sub_other_way(ldc, n, 1);
            vstd::arithmetic::mul::lemma_mul_is_commutative(c, ldc);
            vstd::arithmetic::mul::lemma_mul_is_commutative(n, ldc);
        }
    }
}

/// Column `j` of `op(B)` element by element: element `p` is `B[p + j * ldb]`,
/// or `B[j + p * ldb]` when `B` is stored transposed.
pub proof fn lemma_op_col_elements<T>(b: Seq<T>, ldb: int, is_trans: bool, j: int, len: int, p: int)
    requires
        len >= 0,
        0 <= p < len,
    ensures
        op_col(b, ldb, is_trans, j, len).len() == len,
        op_col(b, ldb, is_trans, j, len)[p] == if is_trans {
            b[j + p * ldb]
        } else {
            b[p + j * ldb]
        },
{
}

} // verus!
