//! Out-of-place transposition of a row-major matrix, one cache-sized tile
//! at a time.

use crate::stride::{
    lemma_matrix_index_in_bounds, lemma_matrix_index_injective, matrix_index, matrix_len,
};
use vstd::prelude::*;

verus! {

/// The side of the square tiles that the transposition works through.
pub const TILE: usize = 64;

/// `dst` holds the transpose of the row-major `rows` by `cols` matrix `src`
/// as a row-major `cols` by `rows` matrix: element `(i, j)` of `src`, at
/// `i * cols + j`, is element `(j, i)` of `dst`, at `j * rows + i`.
pub open spec fn is_transpose<T>(src: Seq<T>, dst: Seq<T>, rows: int, cols: int) -> bool {
    &&& src.len() == rows * cols
    &&& dst.len() == rows * cols
    &&& forall|i: int, j: int|
        0 <= i < rows && 0 <= j < cols ==> dst[#[trigger] matrix_index(i, j, rows)]
            == src[matrix_index(j, i, cols)]
}

/// Element `(x, y)` of the transpose is in place in `dst`.
pub open spec fn placed<T>(src: Seq<T>, dst: Seq<T>, rows: int, cols: int, x: int, y: int) -> bool {
    dst[matrix_index(x, y, rows)] == src[matrix_index(y, x, cols)]
}

/// A `rows` by `cols` buffer holds a column-major matrix of either shape
/// whose leading dimension is its row count.
proof fn lemma_square_buffer(rows: int, cols: int)
    ensures
        rows > 0 && cols > 0 ==> matrix_len(rows, cols, rows) == rows * cols,
        rows > 0 && cols > 0 ==> matrix_len(cols, rows, cols) == rows * cols,
{
    assert((cols - 1) * rows + rows == rows * cols) by (nonlinear_arith);
    assert((rows - 1) * cols + cols == rows * cols) by (nonlinear_arith);
}

/// Writing element `(x, y)` of the transpose keeps every other element that
/// was in place.
proof fn lemma_place_keeps_others<T>(
    src: Seq<T>,
    before: Seq<T>,
    after: Seq<T>,
    rows: int,
    cols: int,
    x: int,
    y: int,
)
    requires
        0 <= x < rows,
        0 <= y < cols,
        before.len() == rows * cols,
        src.len() == rows * cols,
        after == before.update(matrix_index(x, y, rows), src[matrix_index(y, x, cols)]),
    ensures
        after.len() == before.len(),
        placed(src, after, rows, cols, x, y),
        forall|a: int, b: int|
            0 <= a < rows && 0 <= b < cols && (a != x || b != y) && placed(
                src,
                before,
                rows,
                cols,
                a,
                b,
            ) ==> #[trigger] placed(src, after, rows, cols, a, b),
{
    lemma_square_buffer(rows, cols);
    lemma_matrix_index_in_bounds(rows, cols, rows, rows * cols, x, y);
    assert forall|a: int, b: int|
        0 <= a < rows && 0 <= b < cols && (a != x || b != y) && placed(
            src,
            before,
            rows,
            cols,
            a,
            b,
        ) implies #[trigger] placed(src, after, rows, cols, a, b) by {
        lemma_matrix_index_in_bounds(rows, cols, rows, rows * cols, a, b);
        if matrix_index(a, b, rows) == matrix_index(x, y, rows) {
            lemma_matrix_index_injective(rows, rows, a, b, x, y);
        }
    }
}

/// Transposes the row-major `rows` by `cols` matrix `src` into `dst`, which
/// afterwards holds it as a row-major `cols` by `rows` matrix. Both buffers
/// must hold exactly `rows * cols` elements.
pub fn mat_transpose<T: Copy>(src: &[T], dst: &mut [T], rows: usize, cols: usize)
    requires
        src@.len() == rows * cols,
        old(dst)@.len() == rows * cols,
    ensures
        is_transpose(src@, final(dst)@, rows as int, cols as int),
{
    let total = src.len();
    let mut ii: usize = 0;
    while ii < rows
        invariant
            ii <= rows,
            total == rows * cols,
            src@.len() == rows * cols,
            dst@.len() == rows * cols,
            forall|a: int, b: int|
                0 <= a < ii && 0 <= b < cols ==> #[trigger] placed(src@, dst@, rows as int, cols as int, a, b),
        decreases rows - ii,
    {
        let i_max = if rows - ii < TILE {
            rows
        } else {
            ii + TILE
        };
        let mut jj: usize = 0;
        while jj < cols
            invariant
                ii < i_max <= rows,
                total == rows * cols,
                jj <= cols,
                src@.len() == rows * cols,
                dst@.len() == rows * cols,
                forall|a: int, b: int|
                    (0 <= a < ii && 0 <= b < cols) || (ii <= a < i_max && 0 <= b < jj)
                        ==> #[trigger] placed(src@, dst@, rows as int, cols as int, a, b),
            decreases cols - jj,
        {
            let j_max = if cols - jj < TILE {
                cols
            } else {
                jj + TILE
            };
            let mut x: usize = ii;
            while x < i_max
                invariant
                    ii <= x <= i_max <= rows,
                    total == rows * cols,
                    jj < j_max <= cols,
                    src@.len() == rows * cols,
                    dst@.len() == rows * cols,
                    forall|a: int, b: int|
                        (0 <= a < ii && 0 <= b < cols) || (ii <= a < i_max && 0 <= b < jj) || (ii
                            <= a < x && jj <= b < j_max) ==> #[trigger] placed(
                            src@,
                            dst@,
                            rows as int,
                            cols as int,
                            a,
                            b,
                        ),
                decreases i_max - x,
            {
                let mut y: usize = jj;
                while y < j_max
                    invariant
                        ii <= x < i_max <= rows,
                        total == rows * cols,
                        jj <= y <= j_max <= cols,
                        src@.len() == rows * cols,
                        dst@.len() == rows * cols,
                        forall|a: int, b: int|
                            (0 <= a < ii && 0 <= b < cols) || (ii <= a < i_max && 0 <= b < jj) || (ii
                                <= a < x && jj <= b < j_max) || (a == x && jj <= b < y)
                                ==> #[trigger] placed(src@, dst@, rows as int, cols as int, a, b),
                    decreases j_max - y,
                {
                    proof {
                        lemma_square_buffer(rows as int, cols as int);
                        lemma_matrix_index_in_bounds(
                            rows as int,
                            cols as int,
                            rows as int,
                            rows * cols,
                            x as int,
                            y as int,
                        );
                        lemma_matrix_index_in_bounds(
                            cols as int,
                            rows as int,
                            cols as int,
                            rows * cols,
                            y as int,
                            x as int,
                        );
                    }
                    let ghost before = dst@;
                    dst[y * rows + x] = src[x * cols + y];
                    proof {
                        lemma_place_keeps_others(
                            src@,
                            before,
                            dst@,
                            rows as int,
                            cols as int,
                            x as int,
                            y as int,
                        );
                    }
                    y += 1;
                }
                x += 1;
            }
            jj = j_max;
        }
        ii = i_max;
    }
    assert forall|i: int, j: int| 0 <= i < rows && 0 <= j < cols implies dst@[#[trigger] matrix_index(
        i,
        j,
        rows as int,
    )] == src@[matrix_index(j, i, cols as int)] by {
        assert(placed(src@, dst@, rows as int, cols as int, i, j));
    }
}

/// Transposing twice gives back the first matrix: if `dst` is the
/// transpose of the `rows` by `cols` matrix `src`, and `back` the transpose
/// of the `cols` by `rows` matrix `dst`, then `back` is `src`.
pub proof fn lemma_transpose_twice<T>(
    src: Seq<T>,
    dst: Seq<T>,
    back: Seq<T>,
    rows: int,
    cols: int,
)
    requires
        rows >= 0,
        cols >= 0,
        is_transpose(src, dst, rows, cols),
        is_transpose(dst, back, cols, rows),
    ensures
        back == src,
{
    assert forall|k: int| 0 <= k < src.len() implies back[k] == src[k] by {
        if cols == 0 {
            assert(src.len() == 0);
        }
        vstd::arithmetic::mul::lemma_mul_is_commutative(rows, cols);
        vstd::arithmetic::div_mod::lemma_fundamental_div_mod(k, cols);
        let i = k / cols;
        let j = k % cols;
        assert(0 <= i < rows) by {
            vstd::arithmetic::div_mod::lemma_div_pos_is_pos(k, cols);
            vstd::arithmetic::div_mod::lemma_div_multiples_vanish(rows, cols);
            vstd::arithmetic::div_mod::lemma_div_by_multiple_is_strongly_ordered(
                k,
                rows * cols,
                rows,
                cols,
            );
        }
        assert(k == matrix_index(j, i, cols)) by {
            vstd::arithmetic::mul::lemma_mul_is_commutative(cols, i);
        }
        assert(back[matrix_index(j, i, cols)] == dst[matrix_index(i, j, rows)]);
    }
    assert(back =~= src);
}

/// In terms of buffer positions: element `(i, j)` of the row-major `rows`
/// by `cols` source, at `i * cols + j`, lands at `j * rows + i` of the
/// destination.
pub proof fn lemma_transpose_positions<T>(src: Seq<T>, dst: Seq<T>, rows: int, cols: int, i: int, j: int)
    requires
        is_transpose(src, dst, rows, cols),
        0 <= i < rows,
        0 <= j < cols,
    ensures
        dst[j * rows + i] == src[i * cols + j],
{
    assert(dst[matrix_index(i, j, rows)] == src[matrix_index(j, i, cols)]);
    vstd::arithmetic::mul::lemma_mul_is_commutative(j, rows);
    vstd::arithmetic::mul::lemma_mul_is_commutative(i, cols);
}

} // verus!
