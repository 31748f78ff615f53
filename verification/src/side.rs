use vstd::prelude::*;

verus! {

/// A value of one of two types: what a `partition_map` closure answers for an item,
/// telling on which side the item goes.
pub enum Either<L, R> {
    Left(L),
    Right(R),
}

} // verus!
