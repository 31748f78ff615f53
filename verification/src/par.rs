//! The parallel side: each function here hands the items to one rayon operation on
//! `Vec::into_par_iter` (collecting into a `Vec` where the operation yields an iterator)
//! and states what rayon's source and documentation show of the result. Verus believes
//! these contracts; it does not read the bodies.
//!
//! rayon keeps the order of items when it collects an indexed iterator into a `Vec`, and
//! also when it collects an unindexed one (its `ParallelExtend` for `Vec` appends the
//! pieces in order). Where rayon cuts the items into pieces (`fold`, `reduce`, `map_with`,
//! `while_some`, ...), how it cuts them depends on the thread pool: the contracts state
//! what holds of every way of cutting. Likewise a closure is required to accept only the
//! arguments that some way of cutting reaches (a fold of a piece with the next item, or the
//! results of two neighbouring pieces).
use vstd::prelude::*;
use rayon::iter::{IndexedParallelIterator, IntoParallelIterator, IntoParallelRefIterator, ParallelBridge, ParallelIterator};
use std::cmp::Ordering;
use crate::model::{
    pair_callable_on,
    reached_by_clones,
    fold_steps_callable, combine_callable, fold1_steps_callable, combine1_callable,
    answers_with_state,
    all_some, bracketed, callable_on, chunk_folds, filter_mapped, filtered, firsts, flat_mapped,
    concat_vecs, interleave_of, interleave_shortest_of, interspersed, is_first_min, is_last_max,
    is_subseq, lex_order, mapped, max_of, min_of, mut_callable_on, nonzero_product_of,
    partition_mapped, partitioned, product_of, reduces, reduces1, ref_callable_on, ref_mapped,
    seconds, somes, state_callable_on, sum_of, made_by, clone_of, zip_of, enumerate_of, reverse_of,
    skip_of, take_of, is_total_order, picks_first_least, picks_last_greatest, finds_some,
    finds_first, finds_last, places_some, places_first, places_last, answers_any, answers_all,
    least_by_key, greatest_by_key,
};
use crate::side::Either;

verus! {

/// rayon's `for_each`: calls `op` on every item (on the threads of the pool).
#[verifier::external_body]
pub(crate) fn par_for_each<T: Send, F: Fn(T) + Sync + Send>(v: Vec<T>, op: F)
    requires
        callable_on(op, v@),
{
    v.into_par_iter().for_each(op)
}

/// rayon's `for_each_with`: calls `op` on every item with a state that starts, in each
/// piece of the items that rayon hands to a thread, as a value reached from `init` by clones.
#[verifier::external_body]
pub(crate) fn par_for_each_with<T: Send, S: Send + Clone, F: Fn(&mut S, T) + Sync + Send>(v: Vec<T>, init: S, op: F)
    requires
        state_callable_on(op, v@),
{
    v.into_par_iter().for_each_with(init, op)
}

/// rayon's `for_each_init`: like `for_each_with`, with each piece's state made by `init`.
#[verifier::external_body]
pub(crate) fn par_for_each_init<T: Send, S, I: Fn() -> S + Sync + Send, F: Fn(&mut S, T) + Sync + Send>(
    v: Vec<T>,
    init: I,
    op: F,
)
    requires
        call_requires(init, ()),
        state_callable_on(op, v@),
{
    v.into_par_iter().for_each_init(init, op)
}

/// rayon's `count`: the number of items.
#[verifier::external_body]
pub(crate) fn par_count<T: Send>(v: Vec<T>) -> (r: usize)
    ensures
        r == v@.len(),
{
    v.into_par_iter().count()
}

/// rayon's `map`, collected: item `i` of the result is what `f` gave on item `i`.
#[verifier::external_body]
pub(crate) fn par_map<T: Send, R: Send, F: Fn(T) -> R + Sync + Send>(v: Vec<T>, f: F) -> (r: Vec<R>)
    requires
        callable_on(f, v@),
    ensures
        mapped(f, v@, r@),
{
    v.into_par_iter().map(f).collect()
}

/// rayon's `map_with`, collected: for each item, in order, what `f` answered on it. Each
/// piece that rayon cuts gets a state reached from `init` by clones (rayon clones it at
/// every split, before any call) and runs it through the calls on its items in order.
#[verifier::external_body]
pub(crate) fn par_map_with<T: Send, S: Send + Clone, R: Send, F: Fn(&mut S, T) -> R + Sync + Send>(
    v: Vec<T>,
    init: S,
    f: F,
) -> (r: Vec<R>)
    requires
        state_callable_on(f, v@),
    ensures
        r@.len() == v@.len(),
        forall|i: int| 0 <= i < v@.len() ==> answers_with_state(f, v@[i], #[trigger] r@[i]),
        exists|ms: Seq<&mut S>| #[trigger] ms.len() == r@.len() && (forall|k: int| 0 <= k < r@.len() ==> call_ensures(f, (#[trigger] ms[k], v@[k]), r@[k])) && (r@.len() > 0 ==> reached_by_clones(init, *ms[0])) && (forall|k: int| 0 <= k < r@.len() - 1 ==> *final(#[trigger] ms[k]) == *ms[k + 1] || reached_by_clones(init, *ms[k + 1])),
{
    v.into_par_iter().map_with(init, f).collect()
}

/// rayon's `map_init`, collected: for each item, in order, what `f` answered on it. Each
/// piece that rayon cuts gets a state made by `init` when its folding starts, and runs it
/// through the calls on its items in order.
#[verifier::external_body]
pub(crate) fn par_map_init<T: Send, S, R: Send, I: Fn() -> S + Sync + Send, F: Fn(&mut S, T) -> R + Sync + Send>(
    v: Vec<T>,
    init: I,
    f: F,
) -> (r: Vec<R>)
    requires
        call_requires(init, ()),
        state_callable_on(f, v@),
    ensures
        r@.len() == v@.len(),
        forall|i: int| 0 <= i < v@.len() ==> answers_with_state(f, v@[i], #[trigger] r@[i]),
        exists|ms: Seq<&mut S>| #[trigger] ms.len() == r@.len() && (forall|k: int| 0 <= k < r@.len() ==> call_ensures(f, (#[trigger] ms[k], v@[k]), r@[k])) && (r@.len() > 0 ==> call_ensures(init, (), *ms[0])) && (forall|k: int| 0 <= k < r@.len() - 1 ==> *final(#[trigger] ms[k]) == *ms[k + 1] || call_ensures(init, (), *ms[k + 1])),
{
    v.into_par_iter().map_init(init, f).collect()
}

/// rayon's `cloned`, collected: item `i` of the result is a clone of item `i`.
#[verifier::external_body]
pub(crate) fn par_cloned<'a, T: Clone + Send + Sync>(v: Vec<&'a T>) -> (r: Vec<T>)
    ensures
        r@.len() == v@.len(),
        forall|i: int| 0 <= i < v@.len() ==> cloned(*v@[i], #[trigger] r@[i]),
{
    v.into_par_iter().cloned().collect()
}

/// rayon's `inspect`, collected: `f` sees a reference to every item; the items are kept.
#[verifier::external_body]
pub(crate) fn par_inspect<T: Send, F: Fn(&T) + Sync + Send>(v: Vec<T>, f: F) -> (r: Vec<T>)
    requires
        ref_callable_on(f, v@),
    ensures
        r@ == v@,
{
    v.into_par_iter().inspect(f).collect()
}

/// rayon's `update`, collected: for each item, in order, what one call of `f` on it by
/// `&mut` left of it.
#[verifier::external_body]
pub(crate) fn par_update<T: Send, F: Fn(&mut T) + Sync + Send>(v: Vec<T>, f: F) -> (r: Vec<T>)
    requires
        mut_callable_on(f, v@),
    ensures
        r@.len() == v@.len(),
        exists|ms: Seq<&mut T>| #[trigger] ms.len() == r@.len() && (forall|k: int| 0 <= k < r@.len() ==> *final(#[trigger] ms[k]) == r@[k] && *ms[k] == v@[k] && call_ensures(f, (ms[k],), ())),
{
    v.into_par_iter().update(f).collect()
}

/// rayon's `filter`, collected: the items on which `pred` answered `true`, in order.
#[verifier::external_body]
pub(crate) fn par_filter<T: Send, F: Fn(&T) -> bool + Sync + Send>(v: Vec<T>, pred: F) -> (r: Vec<T>)
    requires
        ref_callable_on(pred, v@),
    ensures
        filtered(pred, v@, r@),
{
    v.into_par_iter().filter(pred).collect()
}

/// rayon's `filter_map`, collected: the `Some` answers of `f`, in order.
#[verifier::external_body]
pub(crate) fn par_filter_map<T: Send, R: Send, F: Fn(T) -> Option<R> + Sync + Send>(v: Vec<T>, f: F) -> (r: Vec<R>)
    requires
        callable_on(f, v@),
    ensures
        filter_mapped(f, v@, r@),
{
    v.into_par_iter().filter_map(f).collect()
}

/// rayon's `flat_map`, collected: the answers of `f`, one after another, in order.
#[verifier::external_body]
pub(crate) fn par_flat_map<T: Send, R: Send, F: Fn(T) -> Vec<R> + Sync + Send>(v: Vec<T>, f: F) -> (r: Vec<R>)
    requires
        callable_on(f, v@),
    ensures
        flat_mapped(f, v@, r@),
{
    v.into_par_iter().flat_map(f).collect()
}

/// rayon's `flatten`, collected: the inner vectors, one after another, in order.
#[verifier::external_body]
pub(crate) fn par_flatten<R: Send>(v: Vec<Vec<R>>) -> (r: Vec<R>)
    ensures
        r@ == concat_vecs(v@),
{
    v.into_par_iter().flatten().collect()
}

/// rayon's `reduce`: the items cut into consecutive pieces, each folded with `op` from a
/// value of `identity()`, the results combined with `op` in order in some bracketing.
#[verifier::external_body]
pub(crate) fn par_reduce<T: Send, ID: Fn() -> T + Sync + Send, OP: Fn(T, T) -> T + Sync + Send>(
    v: Vec<T>,
    identity: ID,
    op: OP,
) -> (r: T)
    requires
        call_requires(identity, ()),
        fold_steps_callable(made_by(identity), op, v@, true),
        combine_callable(made_by(identity), op, v@),
    ensures
        reduces(made_by(identity), op, v@, r),
{
    v.into_par_iter().reduce(identity, op)
}

/// rayon's `reduce_with`: `None` exactly when there are no items; else the items cut into
/// consecutive nonempty pieces, each folded with `op` from its first item, the results
/// combined with `op` in order in some bracketing.
#[verifier::external_body]
pub(crate) fn par_reduce_with<T: Send, OP: Fn(T, T) -> T + Sync + Send>(v: Vec<T>, op: OP) -> (r: Option<T>)
    requires
        fold1_steps_callable(op, v@, true),
        combine1_callable(op, v@),
    ensures
        r is None <==> v@.len() == 0,
        r matches Some(x) ==> reduces1(op, v@, x),
{
    v.into_par_iter().reduce_with(op)
}

/// rayon's `fold`, collected: one value per piece that rayon cut the items into, in order,
/// each the fold of its piece with `op` from a value of `identity()`.
#[verifier::external_body]
pub(crate) fn par_fold<T: Send, U: Send, ID: Fn() -> U + Sync + Send, F: Fn(U, T) -> U + Sync + Send>(
    v: Vec<T>,
    identity: ID,
    op: F,
) -> (r: Vec<U>)
    requires
        call_requires(identity, ()),
        fold_steps_callable(made_by(identity), op, v@, true),
    ensures
        chunk_folds(made_by(identity), op, v@, r@),
{
    v.into_par_iter().fold(identity, op).collect()
}

/// rayon's `fold_with`, collected: like `fold`, each piece folded from a value reached
/// from `init` by clones (rayon clones the start again at every split).
#[verifier::external_body]
pub(crate) fn par_fold_with<T: Send, U: Send + Clone, F: Fn(U, T) -> U + Sync + Send>(
    v: Vec<T>,
    init: U,
    op: F,
) -> (r: Vec<U>)
    requires
        fold_steps_callable(clone_of(init), op, v@, true),
    ensures
        chunk_folds(clone_of(init), op, v@, r@),
{
    v.into_par_iter().fold_with(init, op).collect()
}

/// rayon's `sum` on `u64` items: with no overflow anywhere (every partial sum is at most
/// the whole), the exact sum.
#[verifier::external_body]
pub(crate) fn par_sum(v: Vec<u64>) -> (r: u64)
    requires
        sum_of(v@) <= u64::MAX,
    ensures
        r == sum_of(v@),
{
    v.into_par_iter().sum()
}

/// rayon's `product` on `u64` items: with no overflow anywhere (every partial product is
/// zero or at most the product of the nonzero items), the exact product.
#[verifier::external_body]
pub(crate) fn par_product(v: Vec<u64>) -> (r: u64)
    requires
        nonzero_product_of(v@) <= u64::MAX,
    ensures
        r == product_of(v@),
{
    v.into_par_iter().product()
}

/// rayon's `min` on `u64` items.
#[verifier::external_body]
pub(crate) fn par_min(v: Vec<u64>) -> (r: Option<u64>)
    ensures
        r is None <==> v@.len() == 0,
        r matches Some(x) ==> x == min_of(v@),
{
    v.into_par_iter().min()
}

/// rayon's `max` on `u64` items.
#[verifier::external_body]
pub(crate) fn par_max(v: Vec<u64>) -> (r: Option<u64>)
    ensures
        r is None <==> v@.len() == 0,
        r matches Some(x) ==> x == max_of(v@),
{
    v.into_par_iter().max()
}

/// rayon's `min_by`: `None` exactly when there are no items, else one of the items.
/// rayon computes it as `reduce_with` of "the left one unless `f` finds it greater",
/// which keeps the items in order; when `f` is a total order that gives the first
/// least item, however the pieces are bracketed.
#[verifier::external_body]
pub(crate) fn par_min_by<T: Send, F: Fn(&T, &T) -> Ordering + Sync + Send>(v: Vec<T>, f: F) -> (r: Option<T>)
    requires
        pair_callable_on(f, v@),
    ensures
        r is None <==> v@.len() == 0,
        r matches Some(x) ==> v@.contains(x),
        is_total_order(f) ==> picks_first_least(f, v@, r),
{
    v.into_par_iter().min_by(f)
}

/// rayon's `max_by`: `None` exactly when there are no items, else one of the items.
/// rayon computes it as `reduce_with` of "the left one if `f` finds it greater, else
/// the right one", which keeps the items in order; when `f` is a total order that
/// gives the last greatest item, however the pieces are bracketed.
#[verifier::external_body]
pub(crate) fn par_max_by<T: Send, F: Fn(&T, &T) -> Ordering + Sync + Send>(v: Vec<T>, f: F) -> (r: Option<T>)
    requires
        pair_callable_on(f, v@),
    ensures
        r is None <==> v@.len() == 0,
        r matches Some(x) ==> v@.contains(x),
        is_total_order(f) ==> picks_last_greatest(f, v@, r),
{
    v.into_par_iter().max_by(f)
}

/// rayon's `min_by_key`: the key of each item is computed once; the result is the first
/// item with the least key (rayon reduces in order, keeping the left one on a tie).
#[verifier::external_body]
pub(crate) fn par_min_by_key<T: Send, F: Fn(&T) -> u64 + Sync + Send>(v: Vec<T>, f: F) -> (r: Option<T>)
    requires
        ref_callable_on(f, v@),
    ensures
        least_by_key(f, v@, r),
{
    v.into_par_iter().min_by_key(f)
}

/// rayon's `max_by_key`: the key of each item is computed once; the result is the last
/// item with the greatest key (rayon reduces in order, keeping the right one on a tie).
#[verifier::external_body]
pub(crate) fn par_max_by_key<T: Send, F: Fn(&T) -> u64 + Sync + Send>(v: Vec<T>, f: F) -> (r: Option<T>)
    requires
        ref_callable_on(f, v@),
    ensures
        greatest_by_key(f, v@, r),
{
    v.into_par_iter().max_by_key(f)
}

/// rayon's `chain`, collected: the items of `v`, then those of `w`.
#[verifier::external_body]
pub(crate) fn par_chain<T: Send>(v: Vec<T>, w: Vec<T>) -> (r: Vec<T>)
    ensures
        r@ == v@ + w@,
{
    v.into_par_iter().chain(w).collect()
}

/// rayon's `find_any`: some item on which `pred` answered `true`, or `None` when `pred`
/// answered `false` on every item.
#[verifier::external_body]
pub(crate) fn par_find_any<T: Send, F: Fn(&T) -> bool + Sync + Send>(v: Vec<T>, pred: F) -> (r: Option<T>)
    requires
        ref_callable_on(pred, v@),
    ensures
        finds_some(pred, v@, r),
{
    v.into_par_iter().find_any(pred)
}

/// rayon's `find_first`: the first item on which `pred` answered `true` (it answered
/// `false` on every item before), or `None` when it answered `false` on every item.
#[verifier::external_body]
pub(crate) fn par_find_first<T: Send, F: Fn(&T) -> bool + Sync + Send>(v: Vec<T>, pred: F) -> (r: Option<T>)
    requires
        ref_callable_on(pred, v@),
    ensures
        finds_first(pred, v@, r),
{
    v.into_par_iter().find_first(pred)
}

/// rayon's `find_last`: the last item on which `pred` answered `true` (it answered
/// `false` on every item after), or `None` when it answered `false` on every item.
#[verifier::external_body]
pub(crate) fn par_find_last<T: Send, F: Fn(&T) -> bool + Sync + Send>(v: Vec<T>, pred: F) -> (r: Option<T>)
    requires
        ref_callable_on(pred, v@),
    ensures
        finds_last(pred, v@, r),
{
    v.into_par_iter().find_last(pred)
}

/// rayon's `any`: `true` when `pred` answered `true` on some item, `false` when it
/// answered `false` on every item.
#[verifier::external_body]
pub(crate) fn par_any<T: Send, F: Fn(T) -> bool + Sync + Send>(v: Vec<T>, pred: F) -> (r: bool)
    requires
        callable_on(pred, v@),
    ensures
        answers_any(pred, v@, r),
{
    v.into_par_iter().any(pred)
}

/// rayon's `all`: `true` when `pred` answered `true` on every item, `false` when it
/// answered `false` on some item.
#[verifier::external_body]
pub(crate) fn par_all<T: Send, F: Fn(T) -> bool + Sync + Send>(v: Vec<T>, pred: F) -> (r: bool)
    requires
        callable_on(pred, v@),
    ensures
        answers_all(pred, v@, r),
{
    v.into_par_iter().all(pred)
}

/// rayon's `while_some`, collected: each piece that rayon cut stops at its first `None`, or
/// as soon as any piece has met one; so some of the `Some` values, in order, and all of
/// them when there is no `None`.
#[verifier::external_body]
pub(crate) fn par_while_some<T: Send>(v: Vec<Option<T>>) -> (r: Vec<T>)
    ensures
        is_subseq(r@, somes(v@)),
        all_some(v@) ==> r@ == somes(v@),
{
    v.into_par_iter().while_some().collect()
}

/// rayon's `collect` into a `Vec`: the items, in order.
#[verifier::external_body]
pub(crate) fn par_collect<T: Send>(v: Vec<T>) -> (r: Vec<T>)
    ensures
        r@ == v@,
{
    v.into_par_iter().collect()
}

/// rayon's `unzip` into two `Vec`s: the first and the second components, in order.
#[verifier::external_body]
pub(crate) fn par_unzip<A: Send, B: Send>(v: Vec<(A, B)>) -> (r: (Vec<A>, Vec<B>))
    ensures
        r.0@ == firsts(v@),
        r.1@ == seconds(v@),
{
    v.into_par_iter().unzip()
}

/// rayon's `partition` into two `Vec`s: the items on which `pred` answered `true`, and the
/// others, each in order.
#[verifier::external_body]
pub(crate) fn par_partition<T: Send, F: Fn(&T) -> bool + Sync + Send>(v: Vec<T>, pred: F) -> (r: (Vec<T>, Vec<T>))
    requires
        ref_callable_on(pred, v@),
    ensures
        partitioned(pred, v@, r.0@, r.1@),
{
    v.into_par_iter().partition(pred)
}

/// rayon's `partition_map` into two `Vec`s, the answer of `f` told apart into rayon's
/// `Either`: the left values and the right values, each in order.
#[verifier::external_body]
pub(crate) fn par_partition_map<T: Send, L: Send, R: Send, F: Fn(T) -> Either<L, R> + Sync + Send>(
    v: Vec<T>,
    f: F,
) -> (r: (Vec<L>, Vec<R>))
    requires
        callable_on(f, v@),
    ensures
        partition_mapped(f, v@, r.0@, r.1@),
{
    v.into_par_iter().partition_map(move |x| match f(x) {
        Either::Left(l) => either::Either::Left(l),
        Either::Right(r) => either::Either::Right(r),
    })
}

/// rayon's `intersperse`, collected: the items with, between neighbours, a value reached
/// from `sep` by clones (rayon clones the separator at every split and again to emit it).
#[verifier::external_body]
pub(crate) fn par_intersperse<T: Send + Clone>(v: Vec<T>, sep: T) -> (r: Vec<T>)
    ensures
        interspersed(v@, sep, r@),
{
    v.into_par_iter().intersperse(sep).collect()
}

/// rayon's `opt_len` of the parallel iterator over `v`: its exact length.
#[verifier::external_body]
pub(crate) fn par_opt_len<T: Sync>(v: &Vec<T>) -> (r: Option<usize>)
    ensures
        r == Some(v@.len() as usize),
{
    v.par_iter().opt_len()
}

/// rayon's `len` of the parallel iterator over `v`.
#[verifier::external_body]
pub(crate) fn par_len<T: Sync>(v: &Vec<T>) -> (r: usize)
    ensures
        r == v@.len(),
{
    v.par_iter().len()
}

/// rayon's `collect_into_vec`: `target` is cleared, then holds the items in order.
#[verifier::external_body]
pub(crate) fn par_collect_into_vec<T: Send>(v: Vec<T>, target: &mut Vec<T>)
    ensures
        final(target)@ == v@,
{
    v.into_par_iter().collect_into_vec(target)
}

/// rayon's `unzip_into_vecs`: `left` and `right` are cleared, then hold the first and the
/// second components in order.
#[verifier::external_body]
pub(crate) fn par_unzip_into_vecs<A: Send, B: Send>(v: Vec<(A, B)>, left: &mut Vec<A>, right: &mut Vec<B>)
    ensures
        final(left)@ == firsts(v@),
        final(right)@ == seconds(v@),
{
    v.into_par_iter().unzip_into_vecs(left, right)
}

/// rayon's `zip`, collected: pairs place by place, as far as the shorter goes.
#[verifier::external_body]
pub(crate) fn par_zip<T: Send, U: Send>(v: Vec<T>, w: Vec<U>) -> (r: Vec<(T, U)>)
    ensures
        r@ == zip_of(v@, w@),
{
    v.into_par_iter().zip(w).collect()
}

/// rayon's `zip_eq`, collected (rayon panics on different lengths, hence the `requires`).
#[verifier::external_body]
pub(crate) fn par_zip_eq<T: Send, U: Send>(v: Vec<T>, w: Vec<U>) -> (r: Vec<(T, U)>)
    requires
        v@.len() == w@.len(),
    ensures
        r@ == zip_of(v@, w@),
{
    v.into_par_iter().zip_eq(w).collect()
}

/// rayon's `interleave`, collected: alternately from `v` and `w`, then the rest of the longer.
#[verifier::external_body]
pub(crate) fn par_interleave<T: Send>(v: Vec<T>, w: Vec<T>) -> (r: Vec<T>)
    ensures
        r@ == interleave_of(v@, w@),
{
    v.into_par_iter().interleave(w).collect()
}

/// rayon's `interleave_shortest`, collected: alternately from `v` and `w`, until the one
/// whose turn it is has run out.
#[verifier::external_body]
pub(crate) fn par_interleave_shortest<T: Send>(v: Vec<T>, w: Vec<T>) -> (r: Vec<T>)
    ensures
        r@ == interleave_shortest_of(v@, w@),
{
    v.into_par_iter().interleave_shortest(w).collect()
}

/// rayon's `cmp` on `u64` items: the lexicographic order of `v` and `w`.
#[verifier::external_body]
pub(crate) fn par_lex_order(v: Vec<u64>, w: Vec<u64>) -> (r: Ordering)
    ensures
        r == lex_order(v@, w@),
{
    v.into_par_iter().cmp(w)
}

/// rayon's `partial_cmp` on `u64` items: always the lexicographic order.
#[verifier::external_body]
pub(crate) fn par_partial_lex_order(v: Vec<u64>, w: Vec<u64>) -> (r: Option<Ordering>)
    ensures
        r == Some(lex_order(v@, w@)),
{
    v.into_par_iter().partial_cmp(w)
}

/// rayon's `eq` on `u64` items: whether `v` and `w` are the same sequence.
#[verifier::external_body]
pub(crate) fn par_eq(v: Vec<u64>, w: Vec<u64>) -> (r: bool)
    ensures
        r == (v@ == w@),
{
    v.into_par_iter().eq(w)
}

/// rayon's `ne` on `u64` items: whether `v` and `w` differ.
#[verifier::external_body]
pub(crate) fn par_ne(v: Vec<u64>, w: Vec<u64>) -> (r: bool)
    ensures
        r == (v@ != w@),
{
    v.into_par_iter().ne(w)
}

/// rayon's `lt` on `u64` items: whether `v` comes lexicographically before `w`.
#[verifier::external_body]
pub(crate) fn par_lt(v: Vec<u64>, w: Vec<u64>) -> (r: bool)
    ensures
        r == (lex_order(v@, w@) == Ordering::Less),
{
    v.into_par_iter().lt(w)
}

/// rayon's `le` on `u64` items: whether `v` comes lexicographically before or equals `w`.
#[verifier::external_body]
pub(crate) fn par_le(v: Vec<u64>, w: Vec<u64>) -> (r: bool)
    ensures
        r == (lex_order(v@, w@) != Ordering::Greater),
{
    v.into_par_iter().le(w)
}

/// rayon's `gt` on `u64` items: whether `v` comes lexicographically after `w`.
#[verifier::external_body]
pub(crate) fn par_gt(v: Vec<u64>, w: Vec<u64>) -> (r: bool)
    ensures
        r == (lex_order(v@, w@) == Ordering::Greater),
{
    v.into_par_iter().gt(w)
}

/// rayon's `ge` on `u64` items: whether `v` comes lexicographically after or equals `w`.
#[verifier::external_body]
pub(crate) fn par_ge(v: Vec<u64>, w: Vec<u64>) -> (r: bool)
    ensures
        r == (lex_order(v@, w@) != Ordering::Less),
{
    v.into_par_iter().ge(w)
}

/// rayon's `enumerate`, collected: each item with its place.
#[verifier::external_body]
pub(crate) fn par_enumerate<T: Send>(v: Vec<T>) -> (r: Vec<(usize, T)>)
    ensures
        r@ == enumerate_of(v@),
{
    v.into_par_iter().enumerate().collect()
}

/// rayon's `skip`, collected: all but the first `n` items.
#[verifier::external_body]
pub(crate) fn par_skip<T: Send>(v: Vec<T>, n: usize) -> (r: Vec<T>)
    ensures
        r@ == skip_of(v@, n as int),
{
    v.into_par_iter().skip(n).collect()
}

/// rayon's `take`, collected: the first `n` items.
#[verifier::external_body]
pub(crate) fn par_take<T: Send>(v: Vec<T>, n: usize) -> (r: Vec<T>)
    ensures
        r@ == take_of(v@, n as int),
{
    v.into_par_iter().take(n).collect()
}

/// rayon's `rev`, collected: the items in reverse order.
#[verifier::external_body]
pub(crate) fn par_rev<T: Send>(v: Vec<T>) -> (r: Vec<T>)
    ensures
        r@ == reverse_of(v@),
{
    v.into_par_iter().rev().collect()
}

/// rayon's `position_any`: the place of some item on which `pred` answered `true`, or
/// `None` when it answered `false` on every item.
#[verifier::external_body]
pub(crate) fn par_position_any<T: Send, F: Fn(T) -> bool + Sync + Send>(v: Vec<T>, pred: F) -> (r: Option<usize>)
    requires
        callable_on(pred, v@),
    ensures
        places_some(pred, v@, r),
{
    v.into_par_iter().position_any(pred)
}

/// rayon's `position_first`: the first place where `pred` answered `true`, or `None`.
#[verifier::external_body]
pub(crate) fn par_position_first<T: Send, F: Fn(T) -> bool + Sync + Send>(v: Vec<T>, pred: F) -> (r: Option<usize>)
    requires
        callable_on(pred, v@),
    ensures
        places_first(pred, v@, r),
{
    v.into_par_iter().position_first(pred)
}

/// rayon's `position_last`: the last place where `pred` answered `true`, or `None`.
#[verifier::external_body]
pub(crate) fn par_position_last<T: Send, F: Fn(T) -> bool + Sync + Send>(v: Vec<T>, pred: F) -> (r: Option<usize>)
    requires
        callable_on(pred, v@),
    ensures
        places_last(pred, v@, r),
{
    v.into_par_iter().position_last(pred)
}

/// rayon's `par_bridge` over the serial iterator of `v`, collected: rayon's threads take
/// the items in no set order, so the result holds the same items, each as often.
#[verifier::external_body]
pub(crate) fn par_bridge_collect<T: Send>(v: Vec<T>) -> (r: Vec<T>)
    ensures
        r@.to_multiset() == v@.to_multiset(),
{
    v.into_iter().par_bridge().collect()
}

} // verus!
