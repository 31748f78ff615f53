//! Operations that consume a `CondIterator`: running closures, reducing, searching and
//! collecting.
use vstd::prelude::*;
use crate::cond::{fold_serial, lemma_steps_from_start, thread_state, CondIterator};
use crate::lemmas::{lemma_bracketed_single, lemma_one_chunk, lemma_select_push, lemma_somes_push, lemma_take_push, lemma_single_concat};
use crate::model::{
    fold_steps_callable, combine_callable, fold1_steps_callable, combine1_callable,
    finds_some, finds_first, finds_last, places_some, places_first, places_last, answers_any,
    answers_all, least_by_key, greatest_by_key,
    bracketed, callable_on, chunk_folds, firsts, folds, folds1, folds_from, is_first_min,
    is_last_max, lefts, made_by, mapped, partition_mapped, partitioned, reduced1_by, reduces,
    reduces1, ref_callable_on, ref_mapped, rights, seconds, select, negate, state_callable_on, fold_trace,
};
use crate::par::{
    par_all, par_any, par_collect, par_collect_into_vec, par_count, par_find_any, par_find_first,
    par_find_last, par_for_each, par_for_each_init, par_for_each_with, par_len, par_max_by_key,
    par_min_by_key, par_opt_len, par_partition, par_partition_map, par_position_any,
    par_position_first, par_position_last, par_reduce, par_reduce_with, par_unzip,
    par_unzip_into_vecs,
};
use crate::side::Either;

verus! {

impl<T: Send> CondIterator<T> {
    /// Calls `op` on each item.
    pub fn for_each<OP: Fn(T) + Sync + Send>(self, op: OP)
        requires
            callable_on(op, self@),
    {
        proof { self.lemma_fields(); }
        if self.parallel {
            par_for_each(self.items, op)
        } else {
            let ghost s = self@;
            for x in it: self.items.into_iter()
                invariant
                    it.seq() == s,
                    callable_on(op, s),
            {
                op(x);
            }
        }
    }

    /// Calls `op` on each item with a state by `&mut`: serially one state, starting as
    /// `init`, runs through the calls in order (and `op` need only accept the states that
    /// the calls before leave); in parallel each piece that rayon cuts starts from a value
    /// reached from `init` by clones.
    pub fn for_each_with<S: Send + Clone, OP: Fn(&mut S, T) + Sync + Send>(self, init: S, op: OP)
        requires
            self.parallel_mode() ==> state_callable_on(op, self@),
            !self.parallel_mode() ==> forall|ms: Seq<&mut S>, ys: Seq<()>, m: &mut S|
                #![trigger call_requires(op, (m, self@[ms.len() as int])), ys.len()]
                ms.len() < self@.len() && ys.len() == ms.len() && (ms.len() > 0 ==> *ms[0] == init)
                && (forall|k: int| 0 <= k < ms.len() - 1 ==> *final(#[trigger] ms[k]) == *ms[k + 1])
                && (forall|k: int| 0 <= k < ms.len() ==> call_ensures(op, (#[trigger] ms[k], self@[k]), ys[k]))
                && *m == (if ms.len() == 0 { init } else { *final(ms[ms.len() - 1]) })
                ==> call_requires(op, (m, self@[ms.len() as int])),
    {
        proof { self.lemma_fields(); }
        if self.parallel {
            par_for_each_with(self.items, init, op)
        } else {
            let _ = thread_state(self.items, init, &op);
        }
    }

    /// Calls `op` on each item with a state by `&mut` made by `init`: serially once (and
    /// `op` need only accept the states that the calls before leave); in parallel once for
    /// each piece that rayon cuts.
    pub fn for_each_init<S, INIT: Fn() -> S + Sync + Send, OP: Fn(&mut S, T) + Sync + Send>(self, init: INIT, op: OP)
        requires
            call_requires(init, ()),
            self.parallel_mode() ==> state_callable_on(op, self@),
            !self.parallel_mode() ==> forall|st: S| #[trigger] call_ensures(init, (), st) ==> forall|ms: Seq<&mut S>, ys: Seq<()>, m: &mut S|
                    #![trigger call_requires(op, (m, self@[ms.len() as int])), ys.len()]
                    ms.len() < self@.len() && ys.len() == ms.len() && (ms.len() > 0 ==> *ms[0] == st)
                    && (forall|k: int| 0 <= k < ms.len() - 1 ==> *final(#[trigger] ms[k]) == *ms[k + 1])
                    && (forall|k: int| 0 <= k < ms.len() ==> call_ensures(op, (#[trigger] ms[k], self@[k]), ys[k]))
                    && *m == (if ms.len() == 0 { st } else { *final(ms[ms.len() - 1]) })
                    ==> call_requires(op, (m, self@[ms.len() as int])),
    {
        proof { self.lemma_fields(); }
        if self.parallel {
            par_for_each_init(self.items, init, op)
        } else {
            let start = init();
            let _ = thread_state(self.items, start, &op);
        }
    }

    /// The number of items.
    pub fn count(self) -> (r: usize)
        ensures
            r == self@.len(),
    {
        proof { self.lemma_fields(); }
        if self.parallel {
            par_count(self.items)
        } else {
            self.items.len()
        }
    }

    /// Reduces the items with `op`: serially by folding them in order from a value of
    /// `identity()`; in parallel rayon cuts them into consecutive pieces, folds each from a
    /// value of `identity()` and combines the results with `op` in order, in some
    /// bracketing.
    pub fn reduce<ID: Fn() -> T + Sync + Send, OP: Fn(T, T) -> T + Sync + Send>(self, identity: ID, op: OP) -> (r: T)
        requires
            call_requires(identity, ()),
            fold_steps_callable(made_by(identity), op, self@, self.parallel_mode()),
            self.parallel_mode() ==> combine_callable(made_by(identity), op, self@),
        ensures
            reduces(made_by(identity), op, self@, r),
            !self.parallel_mode() ==> folds_from(made_by(identity), op, self@, r),
    {
        proof { self.lemma_fields(); }
        if self.parallel {
            par_reduce(self.items, identity, op)
        } else {
            let ghost s = self@;
            let init = identity();
            let ghost init0 = init;
            proof { lemma_steps_from_start(made_by(identity), op, s, init0); }
            let r = fold_serial(self.items, init, &op);
            proof {
                assert(made_by(identity)(init0));
                assert(folds_from(made_by(identity), op, s, r));
                lemma_one_chunk(made_by(identity), op, s, r);
                lemma_bracketed_single(op, r);
            }
            r
        }
    }

    /// Reduces the items with `op`, without an identity: `None` exactly when there are no
    /// items. Serially the items are folded in order from the first; in parallel rayon
    /// cuts them into consecutive nonempty pieces, folds each from its first item and
    /// combines the results with `op` in order, in some bracketing.
    pub fn reduce_with<OP: Fn(T, T) -> T + Sync + Send>(self, op: OP) -> (r: Option<T>)
        requires
            fold1_steps_callable(op, self@, self.parallel_mode()),
            self.parallel_mode() ==> combine1_callable(op, self@),
        ensures
            r is None <==> self@.len() == 0,
            r matches Some(x) ==> reduces1(op, self@, x),
            !self.parallel_mode() ==> (r matches Some(x) ==> folds1(op, self@, x)),
    {
        proof { self.lemma_fields(); }
        if self.parallel {
            par_reduce_with(self.items, op)
        } else {
            let ghost s = self@;
            let mut acc: Option<T> = None;
            let ghost mut accs: Seq<T> = Seq::empty();
            for x in it: self.items.into_iter()
                invariant
                    it.seq() == s,
                    fold1_steps_callable(op, s, false),
                    acc is None <==> it.index() == 0,
                    acc matches Some(a) ==> fold_trace(op, s[0], s.take(it.index() as int).drop_first(), accs)
                        && accs.last() == a,
            {
                let ghost i = it.index() as int;
                proof { lemma_take_push(s, i); }
                acc = match acc {
                    Some(a) => {
                        proof {
                            assert(s.subrange(0, i).drop_first() =~= s.take(i).drop_first());
                            assert(folds(op, s[0], s.subrange(0, i).drop_first(), a));
                        }
                        let b = op(a, x);
                        proof {
                            assert(s.take(i + 1).drop_first() =~= s.take(i).drop_first().push(s[i]));
                            accs = accs.push(b);
                        }
                        Some(b)
                    },
                    None => {
                        proof {
                            accs = seq![x];
                            assert(s.take(i + 1).drop_first() =~= Seq::<T>::empty());
                        }
                        Some(x)
                    },
                };
                assert(acc matches Some(a) ==> fold_trace(op, s[0], s.take(i + 1).drop_first(), accs)) by {
                    let c = s.take(i + 1).drop_first();
                    if i > 0 {
                        assert forall|k: int| 0 <= k < c.len() implies call_ensures(op, (accs[k], c[k]), #[trigger] accs[k + 1]) by {
                            if k < c.len() - 1 {
                                assert(accs[k + 1] == accs.drop_last()[k + 1]);
                                assert(c[k] == s.take(i).drop_first()[k]);
                            }
                        }
                    }
                }
            }
            proof {
                assert(s.take(s.len() as int) =~= s);
                if acc is Some {
                    let a = acc->0;
                    assert(folds(op, s[0], s.drop_first(), a));
                    assert(folds1(op, s, a));
                    let chunks = seq![s];
                    lemma_single_concat(s);
                    assert(reduced1_by(op, s, chunks, seq![a]));
                    lemma_bracketed_single(op, a);
                }
            }
            acc
        }
    }

    /// The item with the least key under `f`; the first such item on a tie. `None`
    /// exactly when there are no items.
    pub fn min_by_key<F: Fn(&T) -> u64 + Sync + Send>(self, f: F) -> (r: Option<T>)
        requires
            ref_callable_on(f, self@),
        ensures
            least_by_key(f, self@, r),
    {
        proof { self.lemma_fields(); }
        if self.parallel {
            par_min_by_key(self.items, f)
        } else {
            best_by_key(self.items, &f, true)
        }
    }

    /// The item with the greatest key under `f`; the last such item on a tie. `None`
    /// exactly when there are no items.
    pub fn max_by_key<F: Fn(&T) -> u64 + Sync + Send>(self, f: F) -> (r: Option<T>)
        requires
            ref_callable_on(f, self@),
        ensures
            greatest_by_key(f, self@, r),
    {
        proof { self.lemma_fields(); }
        if self.parallel {
            par_max_by_key(self.items, f)
        } else {
            best_by_key(self.items, &f, false)
        }
    }

    /// Some item on which `pred` answers `true` (serially the first), or `None` when it
    /// answers `false` on every item.
    pub fn find_any<P: Fn(&T) -> bool + Sync + Send>(self, predicate: P) -> (r: Option<T>)
        requires
            ref_callable_on(predicate, self@),
        ensures
            finds_some(predicate, self@, r),
            !self.parallel_mode() ==> finds_first(predicate, self@, r),
    {
        proof { self.lemma_fields(); }
        if self.parallel {
            par_find_any(self.items, predicate)
        } else {
            find_first_serial(self.items, &predicate)
        }
    }

    /// The first item on which `pred` answers `true` (it answered `false` on every item
    /// before), or `None` when it answers `false` on every item.
    pub fn find_first<P: Fn(&T) -> bool + Sync + Send>(self, predicate: P) -> (r: Option<T>)
        requires
            ref_callable_on(predicate, self@),
        ensures
            finds_first(predicate, self@, r),
    {
        proof { self.lemma_fields(); }
        if self.parallel {
            par_find_first(self.items, predicate)
        } else {
            find_first_serial(self.items, &predicate)
        }
    }

    /// Whether `pred` answers `true` on some item (`false` when it answers `false` on
    /// every item).
    pub fn any<P: Fn(T) -> bool + Sync + Send>(self, predicate: P) -> (r: bool)
        requires
            callable_on(predicate, self@),
        ensures
            answers_any(predicate, self@, r),
    {
        proof { self.lemma_fields(); }
        if self.parallel {
            par_any(self.items, predicate)
        } else {
            let ghost s = self@;
            for x in it: self.items.into_iter()
                invariant
                    it.seq() == s,
                    s == self@,
                    callable_on(predicate, s),
                    forall|i: int| 0 <= i < it.index() ==> call_ensures(predicate, (#[trigger] s[i],), false),
            {
                let ghost i = it.index() as int;
                assert(x == s[i]);
                if predicate(x) {
                    assert(call_ensures(predicate, (self@[i],), true));
                    return true;
                }
            }
            false
        }
    }

    /// Whether `pred` answers `true` on every item (`false` when it answers `false` on
    /// some item).
    pub fn all<P: Fn(T) -> bool + Sync + Send>(self, predicate: P) -> (r: bool)
        requires
            callable_on(predicate, self@),
        ensures
            answers_all(predicate, self@, r),
    {
        proof { self.lemma_fields(); }
        if self.parallel {
            par_all(self.items, predicate)
        } else {
            let ghost s = self@;
            for x in it: self.items.into_iter()
                invariant
                    it.seq() == s,
                    s == self@,
                    callable_on(predicate, s),
                    forall|i: int| 0 <= i < it.index() ==> call_ensures(predicate, (#[trigger] s[i],), true),
            {
                let ghost i = it.index() as int;
                assert(x == s[i]);
                if !predicate(x) {
                    assert(call_ensures(predicate, (self@[i],), false));
                    return false;
                }
            }
            true
        }
    }

    /// The items, in order.
    pub fn collect(self) -> (r: Vec<T>)
        ensures
            r@ == self@,
    {
        proof { self.lemma_fields(); }
        if self.parallel {
            par_collect(self.items)
        } else {
            self.items
        }
    }

    /// The items on which `pred` answers `true`, and the others, each in order.
    pub fn partition<P: Fn(&T) -> bool + Sync + Send>(self, predicate: P) -> (r: (Vec<T>, Vec<T>))
        requires
            ref_callable_on(predicate, self@),
        ensures
            partitioned(predicate, self@, r.0@, r.1@),
    {
        proof { self.lemma_fields(); }
        if self.parallel {
            par_partition(self.items, predicate)
        } else {
            let ghost s = self@;
            let ghost mut keep: Seq<bool> = Seq::empty();
            let mut yes: Vec<T> = Vec::new();
            let mut no: Vec<T> = Vec::new();
            for x in it: self.items.into_iter()
                invariant
                    it.seq() == s,
                    ref_callable_on(predicate, s),
                    ref_mapped(predicate, s.take(it.index() as int), keep),
                    yes@ == select(s.take(it.index() as int), keep),
                    no@ == select(s.take(it.index() as int), negate(keep)),
            {
                let ghost i = it.index() as int;
                let b = predicate(&x);
                proof {
                    lemma_take_push(s, i);
                    lemma_select_push(s.take(i), keep, s[i], b);
                    lemma_select_push(s.take(i), negate(keep), s[i], !b);
                    assert(negate(keep.push(b)) =~= negate(keep).push(!b));
                    keep = keep.push(b);
                }
                if b {
                    yes.push(x);
                } else {
                    no.push(x);
                }
                assert(ref_mapped(predicate, s.take(i + 1), keep));
            }
            proof { assert(s.take(s.len() as int) =~= s); }
            (yes, no)
        }
    }

    /// The left answers of `f` and the right ones, each in order.
    pub fn partition_map<L: Send, R: Send, P: Fn(T) -> Either<L, R> + Sync + Send>(self, predicate: P) -> (r: (Vec<L>, Vec<R>))
        requires
            callable_on(predicate, self@),
        ensures
            partition_mapped(predicate, self@, r.0@, r.1@),
    {
        proof { self.lemma_fields(); }
        if self.parallel {
            par_partition_map(self.items, predicate)
        } else {
            let ghost s = self@;
            let ghost mut outs: Seq<Either<L, R>> = Seq::empty();
            let mut left: Vec<L> = Vec::new();
            let mut right: Vec<R> = Vec::new();
            for x in it: self.items.into_iter()
                invariant
                    it.seq() == s,
                    callable_on(predicate, s),
                    mapped(predicate, s.take(it.index() as int), outs),
                    left@ == lefts(outs),
                    right@ == rights(outs),
            {
                let ghost i = it.index() as int;
                let o = predicate(x);
                proof {
                    lemma_take_push(s, i);
                    assert(outs.push(o).drop_last() =~= outs);
                    outs = outs.push(o);
                }
                match o {
                    Either::Left(l) => left.push(l),
                    Either::Right(rv) => right.push(rv),
                }
                assert(mapped(predicate, s.take(i + 1), outs));
            }
            proof { assert(s.take(s.len() as int) =~= s); }
            (left, right)
        }
    }

    /// `target` is cleared, then holds the items in order.
    pub fn collect_into_vec(self, target: &mut Vec<T>)
        ensures
            final(target)@ == self@,
    {
        proof { self.lemma_fields(); }
        if self.parallel {
            par_collect_into_vec(self.items, target)
        } else {
            target.clear();
            let ghost s = self@;
            for x in it: self.items.into_iter()
                invariant
                    it.seq() == s,
                    target@ == s.take(it.index() as int),
            {
                proof { lemma_take_push(s, it.index() as int); }
                target.push(x);
            }
            proof { assert(s.take(s.len() as int) =~= s); }
        }
    }

    /// The place of some item on which `pred` answers `true` (serially the first), or
    /// `None` when it answers `false` on every item.
    pub fn position_any<P: Fn(T) -> bool + Sync + Send>(self, predicate: P) -> (r: Option<usize>)
        requires
            callable_on(predicate, self@),
        ensures
            places_some(predicate, self@, r),
            !self.parallel_mode() ==> places_first(predicate, self@, r),
    {
        proof { self.lemma_fields(); }
        if self.parallel {
            par_position_any(self.items, predicate)
        } else {
            position_serial(self.items, &predicate)
        }
    }

    /// The first place where `pred` answers `true` (it answered `false` on every item
    /// before), or `None` when it answers `false` on every item.
    pub fn position_first<P: Fn(T) -> bool + Sync + Send>(self, predicate: P) -> (r: Option<usize>)
        requires
            callable_on(predicate, self@),
        ensures
            places_first(predicate, self@, r),
    {
        proof { self.lemma_fields(); }
        if self.parallel {
            par_position_first(self.items, predicate)
        } else {
            position_serial(self.items, &predicate)
        }
    }


    /// The last item on which `pred` answers `true` (it answered `false` on every item
    /// after), or `None` when it answers `false` on every item.
    pub fn find_last<P: Fn(&T) -> bool + Sync + Send>(self, predicate: P) -> (r: Option<T>)
        requires
            ref_callable_on(predicate, self@),
        ensures
            finds_last(predicate, self@, r),
    {
        proof { self.lemma_fields(); }
        if self.parallel {
            par_find_last(self.items, predicate)
        } else {
            let ghost s = self@;
            let mut v = self.items;
            while v.len() > 0
                invariant
                    s == self@,
                    ref_callable_on(predicate, s),
                    v@.len() <= s.len(),
                    v@ == s.take(v@.len() as int),
                    forall|i: int| v@.len() <= i < s.len() ==> call_ensures(predicate, (&#[trigger] s[i],), false),
                decreases v@.len(),
            {
                let ghost i = v@.len() - 1;
                let x = v.pop().unwrap();
                assert(x == s[i]);
                if predicate(&x) {
                    assert(x == self@[i] && call_ensures(predicate, (&self@[i],), true));
                    return Some(x);
                }
                assert(v@ =~= s.take(v@.len() as int));
            }
            None
        }
    }

    /// The last place where `pred` answers `true` (it answered `false` on every item
    /// after), or `None` when it answers `false` on every item.
    pub fn position_last<P: Fn(T) -> bool + Sync + Send>(self, predicate: P) -> (r: Option<usize>)
        requires
            callable_on(predicate, self@),
        ensures
            places_last(predicate, self@, r),
    {
        proof { self.lemma_fields(); }
        if self.parallel {
            par_position_last(self.items, predicate)
        } else {
            let ghost s = self@;
            let mut v = self.items;
            while v.len() > 0
                invariant
                    s == self@,
                    callable_on(predicate, s),
                    v@.len() <= s.len(),
                    v@ == s.take(v@.len() as int),
                    forall|i: int| v@.len() <= i < s.len() ==> call_ensures(predicate, (#[trigger] s[i],), false),
                decreases v@.len(),
            {
                let x = v.pop().unwrap();
                let i = v.len();
                assert(x == s[i as int]);
                if predicate(x) {
                    assert(call_ensures(predicate, (self@[i as int],), true));
                    return Some(i);
                }
                assert(v@ =~= s.take(v@.len() as int));
            }
            None
        }
    }
}

impl<T: Send + Sync> CondIterator<T> {
    /// The number of items, when it is known before they are produced (as `len_known`
    /// says), else `None`.
    pub fn opt_len(&self) -> (r: Option<usize>)
        ensures
            r == (if self.len_known() { Some(self@.len() as usize) } else { None::<usize> }),
    {
        proof { self.lemma_fields(); }
        if !self.known_len {
            None
        } else if self.parallel {
            par_opt_len(&self.items)
        } else {
            Some(self.items.len())
        }
    }

    /// The number of items.
    pub fn len(&self) -> (r: usize)
        ensures
            r == self@.len(),
    {
        proof { self.lemma_fields(); }
        if self.parallel {
            par_len(&self.items)
        } else {
            self.items.len()
        }
    }
}

impl<A: Send, B: Send> CondIterator<(A, B)> {
    /// The first and the second components of the pairs, each in order.
    pub fn unzip(self) -> (r: (Vec<A>, Vec<B>))
        ensures
            r.0@ == firsts(self@),
            r.1@ == seconds(self@),
    {
        proof { self.lemma_fields(); }
        if self.parallel {
            par_unzip(self.items)
        } else {
            let mut left: Vec<A> = Vec::new();
            let mut right: Vec<B> = Vec::new();
            unzip_serial(self.items, &mut left, &mut right);
            (left, right)
        }
    }

    /// `left` and `right` are cleared, then hold the first and the second components of
    /// the pairs, each in order.
    pub fn unzip_into_vecs(self, left: &mut Vec<A>, right: &mut Vec<B>)
        ensures
            final(left)@ == firsts(self@),
            final(right)@ == seconds(self@),
    {
        proof { self.lemma_fields(); }
        if self.parallel {
            par_unzip_into_vecs(self.items, left, right)
        } else {
            unzip_serial(self.items, left, right)
        }
    }
}

/// Clears `left` and `right`, then pushes the components of the pairs of `v` in order.
fn unzip_serial<A, B>(v: Vec<(A, B)>, left: &mut Vec<A>, right: &mut Vec<B>)
    ensures
        final(left)@ == firsts(v@),
        final(right)@ == seconds(v@),
{
    left.clear();
    right.clear();
    let ghost s = v@;
    for p in it: v.into_iter()
        invariant
            it.seq() == s,
            left@ == firsts(s.take(it.index() as int)),
            right@ == seconds(s.take(it.index() as int)),
    {
        let ghost i = it.index() as int;
        proof { lemma_take_push(s, i); }
        let (a, b) = p;
        left.push(a);
        right.push(b);
        assert(left@ =~= firsts(s.take(i + 1)));
        assert(right@ =~= seconds(s.take(i + 1)));
    }
    proof { assert(s.take(s.len() as int) =~= s); }
}

/// The item of `v` with the least key under `f` (the first on a tie) when `least`, else
/// the one with the greatest key (the last on a tie).
fn best_by_key<T, F: Fn(&T) -> u64>(v: Vec<T>, f: &F, least: bool) -> (r: Option<T>)
    requires
        ref_callable_on(*f, v@),
    ensures
        r is None <==> v@.len() == 0,
        least ==> (r matches Some(x) ==> exists|keys: Seq<u64>, j: int|
            ref_mapped(*f, v@, keys) && #[trigger] is_first_min(keys, j) && x == v@[j]),
        !least ==> (r matches Some(x) ==> exists|keys: Seq<u64>, j: int|
            ref_mapped(*f, v@, keys) && #[trigger] is_last_max(keys, j) && x == v@[j]),
{
    let ghost s = v@;
    let ghost mut keys: Seq<u64> = Seq::empty();
    let ghost mut j: int = 0;
    let mut best: Option<(u64, T)> = None;
    for x in it: v.into_iter()
        invariant
            it.seq() == s,
            ref_callable_on(*f, s),
            ref_mapped(*f, s.take(it.index() as int), keys),
            best is None <==> it.index() == 0,
            best matches Some(b) ==> 0 <= j < it.index() && b.0 == keys[j] && b.1 == s[j]
                && (least ==> is_first_min(keys, j)) && (!least ==> is_last_max(keys, j)),
    {
        let ghost i = it.index() as int;
        let k = f(&x);
        proof {
            lemma_take_push(s, i);
            keys = keys.push(k);
        }
        assert(ref_mapped(*f, s.take(i + 1), keys));
        best = match best {
            None => {
                proof { j = i; }
                Some((k, x))
            },
            Some((bk, bx)) => {
                let replace = if least { k < bk } else { k >= bk };
                if replace {
                    proof { j = i; }
                    Some((k, x))
                } else {
                    Some((bk, bx))
                }
            },
        };
    }
    proof { assert(s.take(s.len() as int) =~= s); }
    match best {
        Some((_, x)) => Some(x),
        None => None,
    }
}

/// The first item of `v` on which `pred` answers `true`.
fn find_first_serial<T, P: Fn(&T) -> bool>(v: Vec<T>, pred: &P) -> (r: Option<T>)
    requires
        ref_callable_on(*pred, v@),
    ensures
        r matches Some(x) ==> exists|j: int|
            0 <= j < v@.len() && x == #[trigger] v@[j] && call_ensures(*pred, (&v@[j],), true)
                && forall|i: int| 0 <= i < j ==> call_ensures(*pred, (&#[trigger] v@[i],), false),
        r is None ==> forall|i: int| 0 <= i < v@.len() ==> call_ensures(*pred, (&#[trigger] v@[i],), false),
{
    let ghost s = v@;
    for x in it: v.into_iter()
        invariant
            it.seq() == s,
            ref_callable_on(*pred, s),
            forall|i: int| 0 <= i < it.index() ==> call_ensures(*pred, (&#[trigger] s[i],), false),
    {
        let ghost j = it.index() as int;
        if pred(&x) {
            assert(x == s[j]);
            return Some(x);
        }
    }
    None
}

/// The first place in `v` where `pred` answers `true`.
fn position_serial<T, P: Fn(T) -> bool>(v: Vec<T>, pred: &P) -> (r: Option<usize>)
    requires
        callable_on(*pred, v@),
    ensures
        r matches Some(j) ==> j < v@.len() && call_ensures(*pred, (v@[j as int],), true)
            && forall|i: int| 0 <= i < j ==> call_ensures(*pred, (#[trigger] v@[i],), false),
        r is None ==> forall|i: int| 0 <= i < v@.len() ==> call_ensures(*pred, (#[trigger] v@[i],), false),
{
    let ghost s = v@;
    let len = v.len();
    let mut i: usize = 0;
    for x in it: v.into_iter()
        invariant
            it.seq() == s,
            s.len() == len,
            i == it.index(),
            callable_on(*pred, s),
            forall|k: int| 0 <= k < i ==> call_ensures(*pred, (#[trigger] s[k],), false),
    {
        if pred(x) {
            return Some(i);
        }
        i = i + 1;
    }
    None
}


} // verus!
