//! Recoverable failures from a neighbour search.

use vstd::prelude::*;

verus! {

/// Why a search could not run.
#[derive(Clone, Copy, Debug, PartialEq, Eq, Structural)]
pub enum Error {
    /// `k == 0`.
    ZeroK,
    /// A box length is not strictly positive, or H is singular.
    BadBox,
    /// `n == 0` or the point list is empty. Not a buffer-size mismatch.
    Empty,
    /// Caller `out` length is not `n * k`.
    BufferSize,
    /// `n * k` does not fit a slice (`usize` or `isize`).
    Overflow,
    /// `mask` is `Some` and its length is not `n`.
    MaskLen,
    /// Linked-cell mesh would overflow or exceed the bin cap.
    TooManyCells,
    /// The pair cutoff is not finite or not strictly positive.
    BadCutoff,
    /// The periodic image count of a pair search exceeds `2^24`.
    TooManyImages,
}

/// The human-readable text of each error.
pub open spec fn error_text(e: Error) -> Seq<char> {
    match e {
        Error::ZeroK => "k must be at least 1"@,
        Error::BadBox => "singular or non-positive cell"@,
        Error::Empty => "no points"@,
        Error::BufferSize => "out buffer length must be n * k"@,
        Error::Overflow => "n * k overflows"@,
        Error::MaskLen => "mask length must be n"@,
        Error::TooManyCells => "linked-cell mesh is too fine"@,
        Error::BadCutoff => "cutoff must be finite and positive"@,
        Error::TooManyImages => "too many periodic images"@,
    }
}

impl Error {
    /// The message that describes this error.
    pub fn message(&self) -> (s: &'static str)
        ensures
            s@ == error_text(*self),
    {
        match self {
            Error::ZeroK => "k must be at least 1",
            Error::BadBox => "singular or non-positive cell",
            Error::Empty => "no points",
            Error::BufferSize => "out buffer length must be n * k",
            Error::Overflow => "n * k overflows",
            Error::MaskLen => "mask length must be n",
            Error::TooManyCells => "linked-cell mesh is too fine",
            Error::BadCutoff => "cutoff must be finite and positive",
            Error::TooManyImages => "too many periodic images",
        }
    }
}

} // verus!
