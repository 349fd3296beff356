//! The strided-vector model shared by every routine: a logical vector of `n`
//! elements stored in a buffer with a signed increment, BLAS style. With a
//! positive increment element `i` sits at `i * inc`; with a negative one the
//! vector is walked backwards from `(n - 1) * |inc|`.

use vstd::arithmetic::mul::*;
use vstd::prelude::*;

verus! {

/// The magnitude of an increment.
pub open spec fn stride_len(inc: int) -> int {
    if inc < 0 {
        -inc
    } else {
        inc
    }
}

/// The shortest buffer that holds `n` elements at increment `inc`.
pub open spec fn required_len(n: int, inc: int) -> int {
    if n == 0 {
        0
    } else {
        1 + (n - 1) * stride_len(inc)
    }
}

/// Whether a buffer of `len` elements can hold a vector of `n` elements at
/// increment `inc`: nothing is needed for an empty vector, otherwise the
/// increment is nonzero and the buffer long enough.
pub open spec fn vector_fits(n: int, len: int, inc: int) -> bool {
    n == 0 || (inc != 0 && len >= required_len(n, inc))
}

/// Where logical element `i` of an `n`-element vector with increment `inc`
/// lies in its buffer.
pub open spec fn stride_index(n: int, inc: int, i: int) -> int {
    if inc >= 0 {
        i * inc
    } else {
        (n - 1 - i) * (-inc)
    }
}

/// The logical vector that a buffer holds: element `i` is
/// `buf[stride_index(n, inc, i)]`.
pub open spec fn strided_view<T>(buf: Seq<T>, n: int, inc: int) -> Seq<T> {
    Seq::new(n as nat, |i: int| buf[stride_index(n, inc, i)])
}

/// The magnitude of an increment, as a buffer offset.
pub fn stride_magnitude(inc: i32) -> (a: usize)
    ensures
        a == stride_len(inc as int),
        a == (if inc < 0 {
            -inc
        } else {
            inc as int
        }),
{
    if inc < 0 {
        (0i64 - inc as i64) as usize
    } else {
        inc as usize
    }
}

/// The shortest buffer length for `n` elements at increment `inc`, or `None`
/// where that length does not fit in a `usize`.
pub fn required_buffer_len(n: usize, inc: i32) -> (r: Option<usize>)
    ensures
        match r {
            Some(len) => len == required_len(n as int, inc as int),
            None => required_len(n as int, inc as int) > usize::MAX,
        },
        n > 0 ==> match r {
            Some(len) => len == 1 + (n - 1) * (if inc < 0 {
                -inc
            } else {
                inc as int
            }),
            None => 1 + (n - 1) * (if inc < 0 {
                -inc
            } else {
                inc as int
            }) > usize::MAX,
        },
        n == 0 ==> r == Some(0usize),
{
    proof {
        lemma_required_len_exact(n as int, inc as int);
    }
    if n == 0 {
        return Some(0);
    }
    let a = stride_magnitude(inc);
    match (n - 1).checked_mul(a) {
        Some(span) => {
            if span < usize::MAX {
                Some(span + 1)
            } else {
                None
            }
        },
        None => None,
    }
}

/// Whether a buffer of `len` elements holds `n` elements at increment `inc`.
pub fn fits_buffer(n: usize, len: usize, inc: i32) -> (ok: bool)
    ensures
        ok == (len >= required_len(n as int, inc as int)),
        ok == (n == 0 || len >= 1 + (n - 1) * (if inc < 0 {
            -inc
        } else {
            inc as int
        })),
{
    proof {
        lemma_required_len_exact(n as int, inc as int);
    }
    match required_buffer_len(n, inc) {
        Some(need) => len >= need,
        None => false,
    }
}

/// The buffer position of logical element `i`.
pub fn element_index(n: usize, inc: i32, i: usize, len: usize) -> (idx: usize)
    requires
        i < n,
        vector_fits(n as int, len as int, inc as int),
    ensures
        idx == stride_index(n as int, inc as int, i as int),
        inc >= 0 ==> idx == i * inc,
        inc < 0 ==> idx == (n - 1 - i) * (-inc),
        idx < len,
{
    proof {
        lemma_index_in_bounds(n as int, len as int, inc as int, i as int);
    }
    let a = stride_magnitude(inc);
    if inc >= 0 {
        proof {
            lemma_mul_inequality(i as int, n - 1, a as int);
        }
        i * a
    } else {
        proof {
            lemma_mul_inequality((n - 1 - i) as int, n - 1, a as int);
        }
        (n - 1 - i) * a
    }
}

/// Every element of a vector that fits its buffer lies inside the buffer.
pub proof fn lemma_index_in_bounds(n: int, len: int, inc: int, i: int)
    requires
        vector_fits(n, len, inc),
        0 <= i < n,
    ensures
        0 <= stride_index(n, inc, i) < len,
{
    let a = stride_len(inc);
    if inc >= 0 {
        lemma_mul_inequality(i, n - 1, a);
        lemma_mul_nonnegative(i, a);
    } else {
        lemma_mul_inequality(n - 1 - i, n - 1, a);
        lemma_mul_nonnegative(n - 1 - i, a);
    }
}

/// Distinct elements of a vector with a nonzero increment never share a
/// buffer position, so a routine that writes each element once never
/// overwrites another.
pub proof fn lemma_index_injective(n: int, inc: int, i: int, j: int)
    requires
        inc != 0,
        0 <= i < n,
        0 <= j < n,
        i != j,
    ensures
        stride_index(n, inc, i) != stride_index(n, inc, j),
{
    if inc >= 0 {
        if i * inc == j * inc {
            lemma_mul_equality_converse(inc, i, j);
        }
    } else {
        if (n - 1 - i) * (-inc) == (n - 1 - j) * (-inc) {
            lemma_mul_equality_converse(-inc, n - 1 - i, n - 1 - j);
        }
    }
}

/// Negating the increment walks the same positions in the opposite order.
pub proof fn lemma_negated_increment_reverses(n: int, inc: int, i: int)
    requires
        inc > 0,
        0 <= i < n,
    ensures
        stride_index(n, -inc, i) == stride_index(n, inc, n - 1 - i),
{
}

/// A negative increment stores the logical vector reversed: the vector read
/// with `-inc` is the one read with `inc`, back to front.
pub proof fn lemma_negated_view_is_reverse<T>(buf: Seq<T>, n: int, inc: int)
    requires
        inc > 0,
        n >= 0,
    ensures
        strided_view(buf, n, -inc) == strided_view(buf, n, inc).reverse(),
{
    assert(strided_view(buf, n, -inc) =~= strided_view(buf, n, inc).reverse());
}

/// The shortest buffer that holds a column-major `rows` by `cols` matrix
/// (both positive) whose columns start `ld` elements apart: the last column
/// starts at `(cols - 1) * ld` and holds `rows` elements.
pub open spec fn matrix_len(rows: int, cols: int, ld: int) -> int {
    (cols - 1) * ld + rows
}

/// Where element `(r, c)` of a column-major matrix with leading dimension
/// `ld` lies in its buffer.
pub open spec fn matrix_index(r: int, c: int, ld: int) -> int {
    r + c * ld
}

/// The shortest buffer length for a `rows` by `cols` matrix with leading
/// dimension `ld`, or `None` where that length does not fit in a `usize`.
pub fn matrix_buffer_len(rows: usize, cols: usize, ld: usize) -> (r: Option<usize>)
    requires
        cols > 0,
    ensures
        match r {
            Some(len) => len == matrix_len(rows as int, cols as int, ld as int),
            None => matrix_len(rows as int, cols as int, ld as int) > usize::MAX,
        },
        match r {
            Some(len) => len == (cols - 1) * ld + rows,
            None => (cols - 1) * ld + rows > usize::MAX,
        },
{
    match (cols - 1).checked_mul(ld) {
        Some(start) => start.checked_add(rows),
        None => {
            proof {
                lemma_mul_nonnegative((cols - 1) as int, ld as int);
            }
            None
        },
    }
}

/// Every element of a matrix that fits its buffer lies inside the buffer.
pub proof fn lemma_matrix_index_in_bounds(rows: int, cols: int, ld: int, len: int, r: int, c: int)
    requires
        0 <= r < rows,
        0 <= c < cols,
        ld >= rows,
        len >= matrix_len(rows, cols, ld),
    ensures
        0 <= matrix_index(r, c, ld) < len,
{
    lemma_mul_inequality(c, cols - 1, ld);
    lemma_mul_nonnegative(c, ld);
}

/// With a leading dimension no smaller than the row count, distinct
/// elements of a column-major matrix never share a buffer position.
pub proof fn lemma_matrix_index_injective(rows: int, ld: int, r1: int, c1: int, r2: int, c2: int)
    requires
        0 <= r1 < rows,
        0 <= r2 < rows,
        0 <= c1,
        0 <= c2,
        ld >= rows,
        matrix_index(r1, c1, ld) == matrix_index(r2, c2, ld),
    ensures
        r1 == r2,
        c1 == c2,
{
    let k = matrix_index(r1, c1, ld);
    assert(k == c1 * ld + r1) by {
        lemma_mul_is_commutative(c1, ld);
    }
    vstd::arithmetic::div_mod::lemma_fundamental_div_mod_converse(k, ld, c1, r1);
    vstd::arithmetic::div_mod::lemma_fundamental_div_mod_converse(k, ld, c2, r2);
}

/// Where element `(r, c)` of `op(X)` lies in the buffer of `X`: at `(r, c)`
/// of the stored matrix, or at `(c, r)` when `X` is stored transposed.
pub open spec fn op_index(r: int, c: int, ld: int, is_trans: bool) -> int {
    if is_trans {
        matrix_index(c, r, ld)
    } else {
        matrix_index(r, c, ld)
    }
}

/// With a nonnegative increment the vector is stored front to back from
/// the start of the buffer: element `i` lies at `i * inc`, whatever the
/// length of the vector.
pub proof fn lemma_forward_positions(n: int, inc: int, i: int)
    requires
        inc >= 0,
        0 <= i < n,
    ensures
        stride_index(n, inc, i) == i * inc,
        stride_index(n, inc, 0) == 0,
        i + 1 < n ==> stride_index(n, inc, i + 1) == stride_index(n, inc, i) + inc,
{
    lemma_mul_is_distributive_add_other_way(inc, i, 1);
}

/// With a negative increment the vector is stored back to front: element
/// `i` lies at `(n - 1 - i) * |inc|`, so the last element sits at the start
/// of the buffer.
pub proof fn lemma_backward_positions(n: int, inc: int, i: int)
    requires
        inc < 0,
        0 <= i < n,
    ensures
        stride_index(n, inc, i) == (n - 1 - i) * (-inc),
        stride_index(n, inc, n - 1) == 0,
        i + 1 < n ==> stride_index(n, inc, i + 1) == stride_index(n, inc, i) + inc,
{
    lemma_mul_is_distributive_sub_other_way(-inc, n - 1 - i, 1);
}

/// The logical vector read from a buffer with a nonnegative increment is
/// the buffer's elements `0, inc, 2 * inc, ...` in that order.
pub proof fn lemma_forward_view<T>(buf: Seq<T>, n: int, inc: int)
    requires
        inc >= 0,
        n >= 0,
    ensures
        strided_view(buf, n, inc).len() == n,
        forall|i: int| 0 <= i < n ==> #[trigger] strided_view(buf, n, inc)[i] == buf[i * inc],
{
}

/// The buffer that a nonempty vector needs is exactly `1 + (n - 1) * |inc|`
/// elements: the span from its first to its last element, and nothing more.
pub proof fn lemma_required_len_exact(n: int, inc: int)
    requires
        n >= 0,
    ensures
        n > 0 ==> required_len(n, inc) == 1 + (n - 1) * (if inc < 0 {
            -inc
        } else {
            inc
        }),
        n == 0 ==> required_len(n, inc) == 0,
{
}

/// Which buffers hold a vector: an empty vector fits any buffer, and a
/// nonempty one with a nonzero increment fits exactly the buffers of at
/// least `1 + (n - 1) * |inc|` elements; the shortest of those fits.
pub proof fn lemma_vector_fits_exact(n: int, len: int, inc: int)
    requires
        n >= 0,
    ensures
        n == 0 ==> vector_fits(n, len, inc),
        n > 0 && inc == 0 ==> !vector_fits(n, len, inc),
        n > 0 && inc != 0 ==> (vector_fits(n, len, inc) <==> len >= 1 + (n - 1) * (if inc < 0 {
            -inc
        } else {
            inc
        })),
        n > 0 && inc != 0 ==> vector_fits(
            n,
            1 + (n - 1) * (if inc < 0 {
                -inc
            } else {
                inc
            }),
            inc,
        ),
{
}

/// A column-major matrix stores element `(r, c)` at `r + c * ld`: down a
/// column the position grows by one, across a row by the leading dimension,
/// and the shortest buffer ends just after element `(rows - 1, cols - 1)`.
pub proof fn lemma_column_major_positions(rows: int, cols: int, ld: int, r: int, c: int)
    ensures
        matrix_index(r, c, ld) == r + c * ld,
        matrix_index(0, 0, ld) == 0,
        matrix_index(r + 1, c, ld) == matrix_index(r, c, ld) + 1,
        matrix_index(r, c + 1, ld) == matrix_index(r, c, ld) + ld,
        matrix_len(rows, cols, ld) == (cols - 1) * ld + rows,
        op_index(r, c, ld, false) == r + c * ld,
        op_index(r, c, ld, true) == c + r * ld,
{
    lemma_mul_is_distributive_add_other_way(ld, c, 1);
}

} // verus!
