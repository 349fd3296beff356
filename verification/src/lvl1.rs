//! Level 1: vector-vector and vector-scalar routines.
//!
//! The argument checks of every level-1 routine, and the strided traversals
//! that the routines share. The traversals are generic in the element type;
//! the arithmetic that a routine applies to each element is handed in as a
//! closure, and the contracts say which elements it is applied to, in which
//! order, and where each result lands.

use crate::error::BlasError;
use crate::stride::{
    element_index, fits_buffer, lemma_index_in_bounds, lemma_index_injective, required_len, stride_index, strided_view,
    vector_fits,
};
use vstd::prelude::*;

verus! {

/// Both vectors of a two-vector routine fit their buffers.
pub open spec fn pair_fits(n: int, x_len: int, incx: int, y_len: int, incy: int) -> bool {
    vector_fits(n, x_len, incx) && vector_fits(n, y_len, incy)
}

/// Every buffer position that none of the first `done` elements of the
/// vector occupies keeps its old value.
pub open spec fn untouched_beyond<T>(before: Seq<T>, after: Seq<T>, n: int, inc: int, done: int) -> bool {
    &&& after.len() == before.len()
    &&& forall|k: int|
        0 <= k < before.len() && (forall|i: int| 0 <= i < done ==> #[trigger] stride_index(n, inc, i) != k)
            ==> after[k] == before[k]
}

/// Every buffer position that no element of the vector occupies keeps its
/// old value.
pub open spec fn untouched_outside<T>(before: Seq<T>, after: Seq<T>, n: int, inc: int) -> bool {
    untouched_beyond(before, after, n, inc, n)
}

/// An element that a traversal has not reached yet still holds its old value.
pub(crate) proof fn lemma_not_reached<T>(before: Seq<T>, now: Seq<T>, n: int, inc: int, done: int, j: int)
    requires
        vector_fits(n, before.len() as int, inc),
        untouched_beyond(before, now, n, inc, done),
        0 <= done <= j < n,
    ensures
        now[stride_index(n, inc, j)] == before[stride_index(n, inc, j)],
{
    lemma_index_in_bounds(n, before.len() as int, inc, j);
    assert forall|i: int| 0 <= i < done implies #[trigger] stride_index(n, inc, i) != stride_index(
        n,
        inc,
        j,
    ) by {
        lemma_index_injective(n, inc, i, j);
    }
}

/// Writing element `done` of a traversal: the element takes the new value,
/// the elements written before keep theirs, and every position that no
/// element up to `done` occupies keeps its old value.
pub(crate) proof fn lemma_write_step<T>(before: Seq<T>, mid: Seq<T>, after: Seq<T>, n: int, inc: int, done: int, v: T)
    requires
        vector_fits(n, before.len() as int, inc),
        untouched_beyond(before, mid, n, inc, done),
        0 <= done < n,
        after == mid.update(stride_index(n, inc, done), v),
    ensures
        untouched_beyond(before, after, n, inc, done + 1),
        after[stride_index(n, inc, done)] == v,
        forall|j: int| 0 <= j < n && j != done ==> after[#[trigger] stride_index(n, inc, j)] == mid[stride_index(n, inc, j)],
{
    lemma_index_in_bounds(n, before.len() as int, inc, done);
    assert forall|j: int| 0 <= j < n && j != done implies after[#[trigger] stride_index(n, inc, j)]
        == mid[stride_index(n, inc, j)] by {
        lemma_index_in_bounds(n, before.len() as int, inc, j);
        lemma_index_injective(n, inc, j, done);
    }
}

/// Checks the arguments of a one-vector routine (`scal`, `nrm2`, `asum`).
/// An empty vector needs nothing; otherwise the increment must be nonzero
/// and the buffer long enough.
pub fn check_vector(n: usize, len: usize, inc: i32) -> (res: Result<(), BlasError>)
    ensures
        res is Ok <==> vector_fits(n as int, len as int, inc as int),
        res == Err::<(), BlasError>(BlasError::ZeroIncrement) <==> (n > 0 && inc == 0),
        res == Err::<(), BlasError>(BlasError::XTooShort) <==> (n > 0 && inc != 0 && len
            < required_len(n as int, inc as int)),
{
    if n == 0 {
        return Ok(());
    }
    if inc == 0 {
        return Err(BlasError::ZeroIncrement);
    }
    if !fits_buffer(n, len, inc) {
        return Err(BlasError::XTooShort);
    }
    Ok(())
}

/// Checks the arguments of a one-vector search (`i_amax`, `i_amin`), which
/// refuses an empty vector before anything else.
pub fn check_search(n: usize, len: usize, inc: i32) -> (res: Result<(), BlasError>)
    ensures
        res is Ok <==> (n > 0 && vector_fits(n as int, len as int, inc as int)),
        res == Err::<(), BlasError>(BlasError::EmptyVector) <==> n == 0,
        res == Err::<(), BlasError>(BlasError::ZeroIncrement) <==> (n > 0 && inc == 0),
        res == Err::<(), BlasError>(BlasError::XTooShort) <==> (n > 0 && inc != 0 && len
            < required_len(n as int, inc as int)),
{
    if n == 0 {
        return Err(BlasError::EmptyVector);
    }
    check_vector(n, len, inc)
}

/// Checks the arguments of a two-vector routine (`axpy`, `copy`, `swap`,
/// `dot`). An empty pair needs nothing; otherwise both increments must be
/// nonzero, then `x`'s buffer and then `y`'s must be long enough.
pub fn check_vector_pair(n: usize, x_len: usize, incx: i32, y_len: usize, incy: i32) -> (res:
    Result<(), BlasError>)
    ensures
        res is Ok <==> pair_fits(n as int, x_len as int, incx as int, y_len as int, incy as int),
        res == Err::<(), BlasError>(BlasError::ZeroIncrement) <==> (n > 0 && (incx == 0 || incy
            == 0)),
        res == Err::<(), BlasError>(BlasError::XTooShort) <==> (n > 0 && incx != 0 && incy != 0
            && x_len < required_len(n as int, incx as int)),
        res == Err::<(), BlasError>(BlasError::YTooShort) <==> (n > 0 && incx != 0 && incy != 0
            && x_len >= required_len(n as int, incx as int) && y_len < required_len(
            n as int,
            incy as int,
        )),
{
    if n == 0 {
        return Ok(());
    }
    if incx == 0 || incy == 0 {
        return Err(BlasError::ZeroIncrement);
    }
    if !fits_buffer(n, x_len, incx) {
        return Err(BlasError::XTooShort);
    }
    if !fits_buffer(n, y_len, incy) {
        return Err(BlasError::YTooShort);
    }
    Ok(())
}

/// Checks the arguments of a plane rotation (`rot`), which refuses an empty
/// pair before anything else and otherwise checks as `check_vector_pair`.
pub fn check_rotation(n: usize, x_len: usize, incx: i32, y_len: usize, incy: i32) -> (res:
    Result<(), BlasError>)
    ensures
        res is Ok <==> (n > 0 && pair_fits(
            n as int,
            x_len as int,
            incx as int,
            y_len as int,
            incy as int,
        )),
        res == Err::<(), BlasError>(BlasError::EmptyVector) <==> n == 0,
        res == Err::<(), BlasError>(BlasError::ZeroIncrement) <==> (n > 0 && (incx == 0 || incy
            == 0)),
        res == Err::<(), BlasError>(BlasError::XTooShort) <==> (n > 0 && incx != 0 && incy != 0
            && x_len < required_len(n as int, incx as int)),
        res == Err::<(), BlasError>(BlasError::YTooShort) <==> (n > 0 && incx != 0 && incy != 0
            && x_len >= required_len(n as int, incx as int) && y_len < required_len(
            n as int,
            incy as int,
        )),
{
    if n == 0 {
        return Err(BlasError::EmptyVector);
    }
    check_vector_pair(n, x_len, incx, y_len, incy)
}

/// Copies the vector `x` into the vector `y`: afterwards `y` holds `x`'s
/// elements in logical order, and every other position of `y`'s buffer is
/// unchanged.
pub fn copy<T: Copy>(n: usize, x: &[T], incx: i32, y: &mut [T], incy: i32)
    requires
        pair_fits(n as int, x@.len() as int, incx as int, old(y)@.len() as int, incy as int),
    ensures
        strided_view(final(y)@, n as int, incy as int) == strided_view(
            x@,
            n as int,
            incx as int,
        ),
        untouched_outside(old(y)@, final(y)@, n as int, incy as int),
{
    let mut i: usize = 0;
    while i < n
        invariant
            i <= n,
            pair_fits(n as int, x@.len() as int, incx as int, old(y)@.len() as int, incy as int),
            untouched_beyond(old(y)@, y@, n as int, incy as int, i as int),
            forall|j: int|
                0 <= j < i ==> y@[#[trigger] stride_index(n as int, incy as int, j)]
                    == x@[stride_index(n as int, incx as int, j)],
        decreases n - i,
    {
        let ix = element_index(n, incx, i, x.len());
        let iy = element_index(n, incy, i, y.len());
        let ghost mid = y@;
        y[iy] = x[ix];
        proof {
            lemma_write_step(old(y)@, mid, y@, n as int, incy as int, i as int, x@[ix as int]);
        }
        i += 1;
    }
    assert(strided_view(y@, n as int, incy as int) =~= strided_view(x@, n as int, incx as int));
}

/// What `swap` guarantees of the buffers `x`, `y` before and `x2`, `y2`
/// after: the vectors are exchanged and nothing else changes.
pub open spec fn is_swap<T>(
    x: Seq<T>,
    y: Seq<T>,
    x2: Seq<T>,
    y2: Seq<T>,
    n: int,
    incx: int,
    incy: int,
) -> bool {
    &&& strided_view(x2, n, incx) == strided_view(y, n, incy)
    &&& strided_view(y2, n, incy) == strided_view(x, n, incx)
    &&& untouched_outside(x, x2, n, incx)
    &&& untouched_outside(y, y2, n, incy)
}

/// Exchanges the vectors `x` and `y`: afterwards each holds the other's old
/// elements in logical order, and every other position of either buffer is
/// unchanged.
pub fn swap<T: Copy>(n: usize, x: &mut [T], incx: i32, y: &mut [T], incy: i32)
    requires
        pair_fits(n as int, old(x)@.len() as int, incx as int, old(y)@.len() as int, incy as int),
    ensures
        is_swap(old(x)@, old(y)@, final(x)@, final(y)@, n as int, incx as int, incy as int),
{
    let mut i: usize = 0;
    while i < n
        invariant
            i <= n,
            pair_fits(n as int, old(x)@.len() as int, incx as int, old(y)@.len() as int, incy as int),
            untouched_beyond(old(x)@, x@, n as int, incx as int, i as int),
            untouched_beyond(old(y)@, y@, n as int, incy as int, i as int),
            forall|j: int|
                0 <= j < i ==> x@[#[trigger] stride_index(n as int, incx as int, j)]
                    == old(y)@[stride_index(n as int, incy as int, j)],
            forall|j: int|
                0 <= j < i ==> y@[#[trigger] stride_index(n as int, incy as int, j)]
                    == old(x)@[stride_index(n as int, incx as int, j)],
        decreases n - i,
    {
        let ix = element_index(n, incx, i, x.len());
        let iy = element_index(n, incy, i, y.len());
        proof {
            lemma_not_reached(old(x)@, x@, n as int, incx as int, i as int, i as int);
            lemma_not_reached(old(y)@, y@, n as int, incy as int, i as int, i as int);
        }
        let xv = x[ix];
        let yv = y[iy];
        let ghost mid_x = x@;
        let ghost mid_y = y@;
        x[ix] = yv;
        y[iy] = xv;
        proof {
            lemma_write_step(old(x)@, mid_x, x@, n as int, incx as int, i as int, yv);
            lemma_write_step(old(y)@, mid_y, y@, n as int, incy as int, i as int, xv);
        }
        i += 1;
    }
    assert(strided_view(x@, n as int, incx as int) =~= strided_view(old(y)@, n as int, incy as int));
    assert(strided_view(y@, n as int, incy as int) =~= strided_view(old(x)@, n as int, incx as int));
}

/// Replaces each element of `x` by `f` of it (the shape of `scal`): element
/// `i` afterwards is a value that `f` may return for element `i` before, and
/// every other position of the buffer is unchanged.
pub fn map_in_place<T: Copy, F: Fn(T) -> T>(n: usize, x: &mut [T], incx: i32, f: F)
    requires
        vector_fits(n as int, old(x)@.len() as int, incx as int),
        forall|v: T| call_requires(f, (v,)),
    ensures
        forall|i: int|
            0 <= i < n ==> call_ensures(
                f,
                (old(x)@[#[trigger] stride_index(n as int, incx as int, i)],),
                final(x)@[stride_index(n as int, incx as int, i)],
            ),
        untouched_outside(old(x)@, final(x)@, n as int, incx as int),
{
    let mut i: usize = 0;
    while i < n
        invariant
            i <= n,
            vector_fits(n as int, old(x)@.len() as int, incx as int),
            forall|v: T| call_requires(f, (v,)),
            untouched_beyond(old(x)@, x@, n as int, incx as int, i as int),
            forall|j: int|
                0 <= j < i ==> call_ensures(
                    f,
                    (old(x)@[#[trigger] stride_index(n as int, incx as int, j)],),
                    x@[stride_index(n as int, incx as int, j)],
                ),
        decreases n - i,
    {
        let ix = element_index(n, incx, i, x.len());
        proof {
            lemma_not_reached(old(x)@, x@, n as int, incx as int, i as int, i as int);
        }
        let v = f(x[ix]);
        let ghost mid = x@;
        x[ix] = v;
        proof {
            lemma_write_step(old(x)@, mid, x@, n as int, incx as int, i as int, v);
        }
        i += 1;
    }
}

/// Replaces each element of `y` by `f` of the matching element of `x` and
/// itself (the shape of `axpy`): element `i` of `y` afterwards is a value
/// that `f` may return for element `i` of `x` and element `i` of `y` before;
/// every other position of `y`'s buffer is unchanged.
pub fn map_into<T: Copy, F: Fn(T, T) -> T>(
    n: usize,
    x: &[T],
    incx: i32,
    y: &mut [T],
    incy: i32,
    f: F,
)
    requires
        pair_fits(n as int, x@.len() as int, incx as int, old(y)@.len() as int, incy as int),
        forall|a: T, b: T| call_requires(f, (a, b)),
    ensures
        forall|i: int|
            0 <= i < n ==> call_ensures(
                f,
                (
                    x@[stride_index(n as int, incx as int, i)],
                    old(y)@[#[trigger] stride_index(n as int, incy as int, i)],
                ),
                final(y)@[stride_index(n as int, incy as int, i)],
            ),
        untouched_outside(old(y)@, final(y)@, n as int, incy as int),
{
    let mut i: usize = 0;
    while i < n
        invariant
            i <= n,
            pair_fits(n as int, x@.len() as int, incx as int, old(y)@.len() as int, incy as int),
            forall|a: T, b: T| call_requires(f, (a, b)),
            untouched_beyond(old(y)@, y@, n as int, incy as int, i as int),
            forall|j: int|
                0 <= j < i ==> call_ensures(
                    f,
                    (
                        x@[stride_index(n as int, incx as int, j)],
                        old(y)@[#[trigger] stride_index(n as int, incy as int, j)],
                    ),
                    y@[stride_index(n as int, incy as int, j)],
                ),
        decreases n - i,
    {
        let ix = element_index(n, incx, i, x.len());
        let iy = element_index(n, incy, i, y.len());
        proof {
            lemma_not_reached(old(y)@, y@, n as int, incy as int, i as int, i as int);
        }
        let v = f(x[ix], y[iy]);
        let ghost mid = y@;
        y[iy] = v;
        proof {
            lemma_write_step(old(y)@, mid, y@, n as int, incy as int, i as int, v);
        }
        i += 1;
    }
}

/// Replaces each pair of matching elements of `x` and `y` by the pair that
/// `f` returns for them (the shape of `rot`); every other position of either
/// buffer is unchanged.
pub fn map_pairs_in_place<T: Copy, F: Fn(T, T) -> (T, T)>(
    n: usize,
    x: &mut [T],
    incx: i32,
    y: &mut [T],
    incy: i32,
    f: F,
)
    requires
        pair_fits(n as int, old(x)@.len() as int, incx as int, old(y)@.len() as int, incy as int),
        forall|a: T, b: T| call_requires(f, (a, b)),
    ensures
        forall|i: int|
            0 <= i < n ==> call_ensures(
                f,
                (
                    old(x)@[#[trigger] stride_index(n as int, incx as int, i)],
                    old(y)@[stride_index(n as int, incy as int, i)],
                ),
                (
                    final(x)@[stride_index(n as int, incx as int, i)],
                    final(y)@[stride_index(n as int, incy as int, i)],
                ),
            ),
        untouched_outside(old(x)@, final(x)@, n as int, incx as int),
        untouched_outside(old(y)@, final(y)@, n as int, incy as int),
{
    let mut i: usize = 0;
    while i < n
        invariant
            i <= n,
            pair_fits(n as int, old(x)@.len() as int, incx as int, old(y)@.len() as int, incy as int),
            forall|a: T, b: T| call_requires(f, (a, b)),
            untouched_beyond(old(x)@, x@, n as int, incx as int, i as int),
            untouched_beyond(old(y)@, y@, n as int, incy as int, i as int),
            forall|j: int|
                0 <= j < i ==> call_ensures(
                    f,
                    (
                        old(x)@[#[trigger] stride_index(n as int, incx as int, j)],
                        old(y)@[stride_index(n as int, incy as int, j)],
                    ),
                    (x@[stride_index(n as int, incx as int, j)], y@[stride_index(n as int, incy as int, j)]),
                ),
        decreases n - i,
    {
        let ix = element_index(n, incx, i, x.len());
        let iy = element_index(n, incy, i, y.len());
        proof {
            lemma_not_reached(old(x)@, x@, n as int, incx as int, i as int, i as int);
            lemma_not_reached(old(y)@, y@, n as int, incy as int, i as int, i as int);
        }
        let (u, v) = f(x[ix], y[iy]);
        let ghost mid_x = x@;
        let ghost mid_y = y@;
        x[ix] = u;
        y[iy] = v;
        proof {
            lemma_write_step(old(x)@, mid_x, x@, n as int, incx as int, i as int, u);
            lemma_write_step(old(y)@, mid_y, y@, n as int, incy as int, i as int, v);
        }
        i += 1;
    }
}

/// `accs` records a left fold of `f` over `vals` from `init`: `accs[0]` is
/// `init` and each next accumulator is a value that `f` may return for the
/// one before, the element's position and the element.
pub open spec fn is_fold_trace<A, T, F: Fn(A, usize, T) -> A>(
    f: F,
    init: A,
    vals: Seq<T>,
    accs: Seq<A>,
) -> bool {
    &&& accs.len() == vals.len() + 1
    &&& accs[0] == init
    &&& forall|i: int|
        0 <= i < vals.len() ==> call_ensures(f, (#[trigger] accs[i], i as usize, vals[i]), accs[i + 1])
}

/// `accs` records a left fold of `f` over the pairs of `xs` and `ys`.
pub open spec fn is_pair_fold_trace<A, T, F: Fn(A, T, T) -> A>(
    f: F,
    init: A,
    xs: Seq<T>,
    ys: Seq<T>,
    accs: Seq<A>,
) -> bool {
    &&& xs.len() == ys.len()
    &&& accs.len() == xs.len() + 1
    &&& accs[0] == init
    &&& forall|i: int| 0 <= i < xs.len() ==> call_ensures(f, (#[trigger] accs[i], xs[i], ys[i]), accs[i + 1])
}

/// Folding `f` over the pairs of `us` and `vs` from `init` can end at `res`.
pub open spec fn folds_to<A, T, F: Fn(A, T, T) -> A>(
    f: F,
    init: A,
    us: Seq<T>,
    vs: Seq<T>,
    res: A,
) -> bool {
    exists|accs: Seq<A>| is_pair_fold_trace(f, init, us, vs, accs) && accs.last() == res
}

/// Folds `f` over the elements of `x` in logical order, handing it each
/// element's logical position too (the shape of `asum`, `nrm2`, `i_amax` and
/// `i_amin`).
pub fn fold_indexed<A, T: Copy, F: Fn(A, usize, T) -> A>(
    n: usize,
    x: &[T],
    incx: i32,
    init: A,
    f: F,
) -> (res: A)
    requires
        vector_fits(n as int, x@.len() as int, incx as int),
        forall|a: A, i: usize, v: T| call_requires(f, (a, i, v)),
    ensures
        exists|accs: Seq<A>|
            is_fold_trace(f, init, strided_view(x@, n as int, incx as int), accs) && accs.last()
                == res,
{
    let ghost vals = strided_view(x@, n as int, incx as int);
    let ghost mut accs: Seq<A> = seq![init];
    let mut acc = init;
    let mut i: usize = 0;
    while i < n
        invariant
            i <= n,
            vector_fits(n as int, x@.len() as int, incx as int),
            forall|a: A, i: usize, v: T| call_requires(f, (a, i, v)),
            vals == strided_view(x@, n as int, incx as int),
            accs.len() == i + 1,
            accs[0] == init,
            accs.last() == acc,
            forall|j: int| 0 <= j < i ==> call_ensures(f, (#[trigger] accs[j], j as usize, vals[j]), accs[j + 1]),
        decreases n - i,
    {
        let ix = element_index(n, incx, i, x.len());
        acc = f(acc, i, x[ix]);
        proof {
            accs = accs.push(acc);
        }
        i += 1;
    }
    assert(is_fold_trace(f, init, vals, accs));
    acc
}

/// Folds `f` over the pairs of matching elements of `x` and `y` in logical
/// order (the shape of `dot`).
pub fn fold_pairs<A, T: Copy, F: Fn(A, T, T) -> A>(
    n: usize,
    x: &[T],
    incx: i32,
    y: &[T],
    incy: i32,
    init: A,
    f: F,
) -> (res: A)
    requires
        pair_fits(n as int, x@.len() as int, incx as int, y@.len() as int, incy as int),
        forall|a: A, u: T, v: T| call_requires(f, (a, u, v)),
    ensures
        folds_to(
            f,
            init,
            strided_view(x@, n as int, incx as int),
            strided_view(y@, n as int, incy as int),
            res,
        ),
{
    let ghost xs = strided_view(x@, n as int, incx as int);
    let ghost ys = strided_view(y@, n as int, incy as int);
    let ghost mut accs: Seq<A> = seq![init];
    let mut acc = init;
    let mut i: usize = 0;
    while i < n
        invariant
            i <= n,
            pair_fits(n as int, x@.len() as int, incx as int, y@.len() as int, incy as int),
            forall|a: A, u: T, v: T| call_requires(f, (a, u, v)),
            xs == strided_view(x@, n as int, incx as int),
            ys == strided_view(y@, n as int, incy as int),
            accs.len() == i + 1,
            accs[0] == init,
            accs.last() == acc,
            forall|j: int| 0 <= j < i ==> call_ensures(f, (#[trigger] accs[j], xs[j], ys[j]), accs[j + 1]),
        decreases n - i,
    {
        let ix = element_index(n, incx, i, x.len());
        let iy = element_index(n, incy, i, y.len());
        acc = f(acc, x[ix], y[iy]);
        proof {
            accs = accs.push(acc);
        }
        i += 1;
    }
    assert(is_pair_fold_trace(f, init, xs, ys, accs));
    acc
}

/// Step `k` of a scan for the first best element: element `k` takes over
/// from the pick before it exactly when `beats(vals[k], vals[pick])`
/// answers `true`; on `false` (a tie, or a worse element) the earlier pick
/// stays.
pub open spec fn selection_step<T, F: Fn(T, T) -> bool>(
    beats: F,
    vals: Seq<T>,
    picks: Seq<int>,
    k: int,
) -> bool {
    let prev = picks[k - 1];
    &&& 0 <= prev < k
    &&& {
        ||| call_ensures(beats, (vals[k], vals[prev]), true) && picks[k] == k
        ||| call_ensures(beats, (vals[k], vals[prev]), false) && picks[k] == prev
    }
}

/// `picks` records a scan of `vals` for its first best element: the pick
/// starts at element 0, and `picks[k]` is the pick once element `k` has
/// been seen.
pub open spec fn is_selection_trace<T, F: Fn(T, T) -> bool>(
    beats: F,
    vals: Seq<T>,
    picks: Seq<int>,
) -> bool {
    &&& picks.len() == vals.len()
    &&& vals.len() > 0
    &&& picks[0] == 0
    &&& forall|k: int| 0 < k < vals.len() ==> #[trigger] selection_step(beats, vals, picks, k)
}

/// The scan of `vals` for its first best element under `beats` can end at
/// position `r`.
pub open spec fn selects<T, F: Fn(T, T) -> bool>(beats: F, vals: Seq<T>, r: int) -> bool {
    exists|picks: Seq<int>| is_selection_trace(beats, vals, picks) && picks.last() == r
}

/// Scans the `n` elements of `x` in logical order for the first best one
/// and returns its logical position (the shape of `i_amax` and `i_amin`):
/// element 0 is the first pick, and a later element replaces the pick only
/// when `beats(element, pick)` answers `true`, so of equally good elements
/// the first one is kept.
pub fn select_first<T: Copy, F: Fn(T, T) -> bool>(n: usize, x: &[T], incx: i32, beats: F) -> (r:
    usize)
    requires
        n > 0,
        vector_fits(n as int, x@.len() as int, incx as int),
        forall|u: T, v: T| call_requires(beats, (u, v)),
    ensures
        r < n,
        selects(beats, strided_view(x@, n as int, incx as int), r as int),
{
    let ghost vals = strided_view(x@, n as int, incx as int);
    let ix0 = element_index(n, incx, 0, x.len());
    let mut best = x[ix0];
    let mut pick: usize = 0;
    let ghost mut picks: Seq<int> = seq![0int];
    let mut i: usize = 1;
    while i < n
        invariant
            1 <= i <= n,
            vector_fits(n as int, x@.len() as int, incx as int),
            forall|u: T, v: T| call_requires(beats, (u, v)),
            vals == strided_view(x@, n as int, incx as int),
            picks.len() == i,
            picks[0] == 0,
            picks.last() == pick,
            pick < i,
            best == vals[pick as int],
            forall|k: int| 0 < k < i ==> #[trigger] selection_step(beats, vals, picks, k),
        decreases n - i,
    {
        let ix = element_index(n, incx, i, x.len());
        let v = x[ix];
        let ghost prev = pick as int;
        let b = beats(v, best);
        if b {
            pick = i;
            best = v;
        }
        proof {
            let old_picks = picks;
            picks = picks.push(pick as int);
            assert forall|k: int| 0 < k < i + 1 implies #[trigger] selection_step(
                beats,
                vals,
                picks,
                k,
            ) by {
                if k < i {
                    assert(selection_step(beats, vals, old_picks, k));
                    assert(picks[k] == old_picks[k] && picks[k - 1] == old_picks[k - 1]);
                } else {
                    assert(picks[k - 1] == prev);
                }
            }
        }
        i += 1;
    }
    assert(is_selection_trace(beats, vals, picks));
    pick
}

/// Up to element `i`, the pick of a scan whose `beats` compares by a key is
/// the first element of largest key seen so far.
proof fn lemma_pick_is_first_best_so_far<T, F: Fn(T, T) -> bool>(
    beats: F,
    key: spec_fn(T) -> int,
    vals: Seq<T>,
    picks: Seq<int>,
    i: int,
)
    requires
        is_selection_trace(beats, vals, picks),
        forall|u: T, v: T, b: bool| call_ensures(beats, (u, v), b) ==> b == (key(u) > key(v)),
        0 <= i < vals.len(),
    ensures
        0 <= picks[i] <= i,
        forall|j: int| 0 <= j <= i ==> key(#[trigger] vals[j]) <= key(vals[picks[i]]),
        forall|j: int| 0 <= j < picks[i] ==> key(#[trigger] vals[j]) < key(vals[picks[i]]),
    decreases i,
{
    if i > 0 {
        lemma_pick_is_first_best_so_far(beats, key, vals, picks, i - 1);
        assert(selection_step(beats, vals, picks, i));
    }
}

/// When `beats(u, v)` means that `u` has a larger key than `v`, the scan
/// picks the first element of largest key: no element has a larger key,
/// and every element before the pick has a smaller one.
pub proof fn lemma_selection_picks_first_best<T, F: Fn(T, T) -> bool>(
    beats: F,
    key: spec_fn(T) -> int,
    vals: Seq<T>,
    r: int,
)
    requires
        selects(beats, vals, r),
        forall|u: T, v: T, b: bool| call_ensures(beats, (u, v), b) ==> b == (key(u) > key(v)),
    ensures
        0 <= r < vals.len(),
        forall|j: int| 0 <= j < vals.len() ==> key(#[trigger] vals[j]) <= key(vals[r]),
        forall|j: int| 0 <= j < r ==> key(#[trigger] vals[j]) < key(vals[r]),
{
    let picks = choose|picks: Seq<int>| is_selection_trace(beats, vals, picks) && picks.last() == r;
    lemma_pick_is_first_best_so_far(beats, key, vals, picks, vals.len() - 1);
}

/// A buffer whose vector and whose other positions both agree with another
/// buffer's is that buffer.
proof fn lemma_same_view_same_buffer<T>(a: Seq<T>, b: Seq<T>, c: Seq<T>, n: int, inc: int)
    requires
        n >= 0,
        untouched_outside(a, b, n, inc),
        untouched_outside(b, c, n, inc),
        strided_view(c, n, inc) == strided_view(a, n, inc),
    ensures
        c == a,
{
    assert forall|k: int| 0 <= k < a.len() implies c[k] == a[k] by {
        if exists|i: int| 0 <= i < n && #[trigger] stride_index(n, inc, i) == k {
            let i = choose|i: int| 0 <= i < n && #[trigger] stride_index(n, inc, i) == k;
            assert(0 <= i < n && stride_index(n, inc, i) == k);
            assert(strided_view(c, n, inc)[i] == c[stride_index(n, inc, i)]);
            assert(strided_view(a, n, inc)[i] == a[stride_index(n, inc, i)]);
            assert(strided_view(c, n, inc)[i] == strided_view(a, n, inc)[i]);
            assert(c[k] == a[k]);
        } else {
            assert forall|i: int| 0 <= i < n implies #[trigger] stride_index(n, inc, i) != k by {}
            assert(b[k] == a[k]);
            assert(c[k] == b[k]);
        }
    }
    assert(c =~= a);
}

/// Swapping twice gives back both vectors: exchanging `x` and `y` and then
/// exchanging the results restores both buffers exactly.
pub proof fn lemma_swap_twice<T>(
    x: Seq<T>,
    y: Seq<T>,
    x1: Seq<T>,
    y1: Seq<T>,
    x2: Seq<T>,
    y2: Seq<T>,
    n: int,
    incx: int,
    incy: int,
)
    requires
        n >= 0,
        is_swap(x, y, x1, y1, n, incx, incy),
        is_swap(x1, y1, x2, y2, n, incx, incy),
    ensures
        x2 == x,
        y2 == y,
{
    lemma_same_view_same_buffer(x, x1, x2, n, incx);
    lemma_same_view_same_buffer(y, y1, y2, n, incy);
}

/// What a traversal leaves alone, in terms of buffer positions: with
/// increment `inc` the vector occupies the multiples of `|inc|` below
/// `n * |inc|`, so every position that is not such a multiple (a gap between
/// elements) or lies at or past `n * |inc|` keeps its old value.
pub proof fn lemma_untouched_positions<T>(before: Seq<T>, after: Seq<T>, n: int, inc: int, k: int)
    requires
        n >= 0,
        inc != 0,
        untouched_outside(before, after, n, inc),
        0 <= k < before.len(),
        ({
            let a = if inc < 0 {
                -inc
            } else {
                inc
            };
            k % a != 0 || k >= n * a
        }),
    ensures
        after.len() == before.len(),
        after[k] == before[k],
{
    let a = if inc < 0 {
        -inc
    } else {
        inc
    };
    assert forall|i: int| 0 <= i < n implies #[trigger] stride_index(n, inc, i) != k by {
        let j = if inc >= 0 {
            i
        } else {
            n - 1 - i
        };
        assert(stride_index(n, inc, i) == j * a);
        vstd::arithmetic::div_mod::lemma_mod_multiples_basic(j, a);
        vstd::arithmetic::mul::lemma_mul_strict_inequality(j, n, a);
        vstd::arithmetic::mul::lemma_mul_is_commutative(j, a);
        vstd::arithmetic::mul::lemma_mul_is_commutative(n, a);
    }
}

/// The accumulator after the first `k` pairs of a pair-fold trace is the
/// left fold of `g` over those pairs.
proof fn lemma_pair_trace_prefix<A, T, F: Fn(A, T, T) -> A>(
    f: F,
    g: spec_fn(A, T, T) -> A,
    init: A,
    us: Seq<T>,
    vs: Seq<T>,
    accs: Seq<A>,
    k: int,
)
    requires
        is_pair_fold_trace(f, init, us, vs, accs),
        forall|a: A, u: T, v: T, r: A| call_ensures(f, (a, u, v), r) ==> r == g(a, u, v),
        0 <= k <= us.len(),
    ensures
        accs[k] == Seq::new(us.len(), |i: int| (us[i], vs[i])).subrange(0, k).fold_left(
            init,
            |acc: A, p: (T, T)| g(acc, p.0, p.1),
        ),
    decreases k,
{
    let zs = Seq::new(us.len(), |i: int| (us[i], vs[i]));
    let h = |acc: A, p: (T, T)| g(acc, p.0, p.1);
    if k > 0 {
        lemma_pair_trace_prefix(f, g, init, us, vs, accs, k - 1);
        assert(zs.subrange(0, k).drop_last() =~= zs.subrange(0, k - 1));
        assert(call_ensures(f, (accs[k - 1], us[k - 1], vs[k - 1]), accs[k]));
    } else {
        assert(zs.subrange(0, 0) =~= Seq::<(T, T)>::empty());
    }
}

/// Folding a function over pairs, as the `dot`, `gemv`, `symv` and `gemm`
/// traversals do, gives the left fold of what the function computes over
/// the pairs zipped in order: first pair first, each step taking the
/// accumulator so far.
pub proof fn lemma_pair_fold_is_fold_left<A, T, F: Fn(A, T, T) -> A>(
    f: F,
    g: spec_fn(A, T, T) -> A,
    init: A,
    us: Seq<T>,
    vs: Seq<T>,
    res: A,
)
    requires
        folds_to(f, init, us, vs, res),
        forall|a: A, u: T, v: T, r: A| call_ensures(f, (a, u, v), r) ==> r == g(a, u, v),
    ensures
        us.len() == vs.len(),
        res == us.zip_with(vs).fold_left(init, |acc: A, p: (T, T)| g(acc, p.0, p.1)),
{
    let accs = choose|accs: Seq<A>| is_pair_fold_trace(f, init, us, vs, accs) && accs.last() == res;
    lemma_pair_trace_prefix(f, g, init, us, vs, accs, us.len() as int);
    let zs = Seq::new(us.len(), |i: int| (us[i], vs[i]));
    assert(zs.subrange(0, us.len() as int) =~= zs);
    if us.len() == 0 {
        assert(zs =~= us.zip_with(vs));
    } else {
        assert(zs == us.zip_with(vs));
    }
}

/// The accumulator after the first `k` elements of an indexed fold trace is
/// the left fold of `g` over those positions and elements.
proof fn lemma_indexed_trace_prefix<A, T, F: Fn(A, usize, T) -> A>(
    f: F,
    g: spec_fn(A, usize, T) -> A,
    init: A,
    vals: Seq<T>,
    accs: Seq<A>,
    k: int,
)
    requires
        is_fold_trace(f, init, vals, accs),
        forall|a: A, i: usize, v: T, r: A| call_ensures(f, (a, i, v), r) ==> r == g(a, i, v),
        0 <= k <= vals.len(),
    ensures
        accs[k] == Seq::new(vals.len(), |i: int| (i as usize, vals[i])).subrange(0, k).fold_left(
            init,
            |acc: A, p: (usize, T)| g(acc, p.0, p.1),
        ),
    decreases k,
{
    let zs = Seq::new(vals.len(), |i: int| (i as usize, vals[i]));
    if k > 0 {
        lemma_indexed_trace_prefix(f, g, init, vals, accs, k - 1);
        assert(zs.subrange(0, k).drop_last() =~= zs.subrange(0, k - 1));
        assert(call_ensures(f, (accs[k - 1], (k - 1) as usize, vals[k - 1]), accs[k]));
    } else {
        assert(zs.subrange(0, 0) =~= Seq::<(usize, T)>::empty());
    }
}

/// An indexed fold, as `asum` and `nrm2` make, is the left fold of what the
/// function computes over the elements in logical order, each handed its
/// logical position `0, 1, 2, ...`.
pub proof fn lemma_indexed_fold_is_fold_left<A, T, F: Fn(A, usize, T) -> A>(
    f: F,
    g: spec_fn(A, usize, T) -> A,
    init: A,
    vals: Seq<T>,
    res: A,
)
    requires
        exists|accs: Seq<A>| is_fold_trace(f, init, vals, accs) && accs.last() == res,
        forall|a: A, i: usize, v: T, r: A| call_ensures(f, (a, i, v), r) ==> r == g(a, i, v),
    ensures
        res == Seq::new(vals.len(), |i: int| (i as usize, vals[i])).fold_left(
            init,
            |acc: A, p: (usize, T)| g(acc, p.0, p.1),
        ),
{
    let accs = choose|accs: Seq<A>| is_fold_trace(f, init, vals, accs) && accs.last() == res;
    lemma_indexed_trace_prefix(f, g, init, vals, accs, vals.len() as int);
    let zs = Seq::new(vals.len(), |i: int| (i as usize, vals[i]));
    assert(zs.subrange(0, vals.len() as int) =~= zs);
}

} // verus!
