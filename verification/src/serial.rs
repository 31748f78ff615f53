//! The serial side's one call into itertools: its `update` adaptor, which applies a
//! closure to each item by `&mut`, as the serial side of `CondIterator::update`.
use vstd::prelude::*;
use itertools::Itertools;
use crate::model::mut_callable_on;

verus! {

/// itertools' `update` over the items of `v`, collected: for each item, in order, what
/// one call of `f` on it by `&mut` left of it.
#[verifier::external_body]
pub(crate) fn ser_update<T, F: Fn(&mut T)>(v: Vec<T>, f: F) -> (r: Vec<T>)
    requires
        mut_callable_on(f, v@),
    ensures
        r@.len() == v@.len(),
        exists|ms: Seq<&mut T>| #[trigger] ms.len() == r@.len() && (forall|k: int| 0 <= k < r@.len() ==> *final(#[trigger] ms[k]) == r@[k] && *ms[k] == v@[k] && call_ensures(f, (ms[k],), ())),
{
    v.into_iter().update(f).collect()
}

} // verus!
