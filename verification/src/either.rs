//! The `Either` type: a value that is one of two alternatives.
use vstd::prelude::*;

verus! {

/// Either is a type that represents either of two types
///
/// It is split up into a right and a left value, similar
/// to how the Result type functions.
pub enum Either<L, R> {
    Left(L),
    Right(R),
}

impl<L, R> Either<L, R> {
    /// Returns true if the Either contains an element of type L
    pub fn is_left(&self) -> (b: bool)
        ensures
            b == (*self is Left),
    {
        match *self {
            Either::Left(_) => true,
            Either::Right(_) => false,
        }
    }

    /// Returns true if the Either contains an element of type R
    pub fn is_right(&self) -> (b: bool)
        ensures
            b == (*self is Right),
    {
        match *self {
            Either::Left(_) => false,
            Either::Right(_) => true,
        }
    }

    /// Converts the Either into an Option, returning Some(L) or None
    pub fn left(self) -> (o: Option<L>)
        ensures
            o == (match self {
                Either::Left(v) => Some(v),
                Either::Right(_) => None::<L>,
            }),
    {
        match self {
            Either::Left(val) => Some(val),
            Either::Right(_) => None,
        }
    }

    /// Converts the Either into an Option, returning Some(R) or None
    pub fn right(self) -> (o: Option<R>)
        ensures
            o == (match self {
                Either::Left(_) => None::<R>,
                Either::Right(v) => Some(v),
            }),
    {
        match self {
            Either::Left(_) => None,
            Either::Right(val) => Some(val),
        }
    }
}

} // verus!
