use vstd::prelude::*;

verus! {

/// Why a routine refuses its arguments.
#[derive(Debug, Clone, Copy, PartialEq, Eq, Structural)]
pub enum BlasError {
    /// An increment (stride) of zero.
    ZeroIncrement,
    /// A routine that needs at least one element was given none.
    EmptyVector,
    /// A matrix routine was given a zero dimension.
    EmptyMatrix,
    /// The buffer of `x` is shorter than the vector it must hold.
    XTooShort,
    /// The buffer of `y` is shorter than the vector it must hold.
    YTooShort,
    /// The leading dimension of `A` is zero or smaller than its stored rows.
    BadLda,
    /// The leading dimension of `B` is zero or smaller than its stored rows.
    BadLdb,
    /// The leading dimension of `C` is zero or smaller than its rows.
    BadLdc,
    /// The buffer of `A` is shorter than the matrix it must hold.
    ATooShort,
    /// The buffer of `B` is shorter than the matrix it must hold.
    BTooShort,
    /// The buffer of `C` is shorter than the matrix it must hold.
    CTooShort,
}

} // verus!
