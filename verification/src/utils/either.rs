//! A value of one of two types.
use vstd::prelude::*;

verus! {

/// Either a left or a right value.
#[derive(Debug)]
pub enum Either<Lhs, Rhs> {
    Left(Lhs),
    Right(Rhs),
}

} // verus!
