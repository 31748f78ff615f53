//! `CondIterator` and its adaptors: each either hands the items to rayon or runs a
//! verified serial loop, and states its result over the sequence of items, the same
//! way in both modes.
use vstd::prelude::*;
use crate::model::{
    answers_with_state,
    callable_on, filter_mapped, filtered, mapped, mut_callable_on, ref_callable_on,
    ref_mapped, reverse_of, select, interspersed, zip_of, interleave_of, interleave_shortest_of, is_subseq, all_some, leading_somes, is_run_end, flat_mapped, fold_trace, folds, folds_from, chunk_folds, made_by, clone_of, is_clone_chain, fold_steps_callable, reached_by_clones, concat_vecs, enumerate_of, skip_of, take_of, somes, state_callable_on,
};
use crate::lemmas::{lemma_reverse_reverse, lemma_interleave_empty, lemma_reverse_pop, lemma_leading_somes, lemma_one_chunk, lemma_concat_vecs_push, lemma_select_push, lemma_somes_push, lemma_take_push};
use crate::serial::ser_update;
use crate::par::{
    par_bridge_collect, par_chain, par_cloned, par_enumerate, par_filter, par_filter_map,
    par_flat_map, par_flatten, par_fold, par_fold_with, par_inspect, par_interleave,
    par_interleave_shortest, par_intersperse, par_map, par_map_init, par_map_with, par_rev,
    par_skip, par_take, par_update, par_while_some, par_zip, par_zip_eq,
};

verus! {

/// Items that are processed either in parallel (with rayon) or serially, with a
/// common API either way.
pub struct CondIterator<T> {
    pub(crate) items: Vec<T>,
    pub(crate) parallel: bool,
    pub(crate) known_len: bool,
}

impl<T> View for CondIterator<T> {
    type V = Seq<T>;

    /// The items, in order.
    closed spec fn view(&self) -> Seq<T> {
        self.items@
    }
}

/// The items of `v` in reverse order.
pub(crate) fn reversed<T>(v: Vec<T>) -> (r: Vec<T>)
    ensures
        r@ == reverse_of(v@),
{
    let ghost s = v@;
    let mut v = v;
    let mut r: Vec<T> = Vec::new();
    while v.len() > 0
        invariant
            v@ == s.take(s.len() - r@.len()),
            r@.len() <= s.len(),
            forall|j: int| 0 <= j < r@.len() ==> #[trigger] r@[j] == s[s.len() - 1 - j],
        decreases v@.len(),
    {
        let x = v.pop().unwrap();
        r.push(x);
    }
    assert(r@ =~= reverse_of(s));
    r
}

/// Applies `f` to the items of `v` in order with one state by `&mut`, starting as
/// `start`, each call leaving the state that the next one gets.
pub(crate) fn thread_state<T, S, R, F: Fn(&mut S, T) -> R>(v: Vec<T>, start: S, f: &F) -> (r: Vec<R>)
    requires
        forall|ms: Seq<&mut S>, ys: Seq<R>, m: &mut S|
            #![trigger call_requires(*f, (m, v@[ms.len() as int])), ys.len()]
            ms.len() < v@.len() && ys.len() == ms.len() && (ms.len() > 0 ==> *ms[0] == start)
            && (forall|k: int| 0 <= k < ms.len() - 1 ==> *final(#[trigger] ms[k]) == *ms[k + 1])
            && (forall|k: int| 0 <= k < ms.len() ==> call_ensures(*f, (#[trigger] ms[k], v@[k]), ys[k]))
            && *m == (if ms.len() == 0 { start } else { *final(ms[ms.len() - 1]) })
            ==> call_requires(*f, (m, v@[ms.len() as int])),
    ensures
        r@.len() == v@.len(),
        forall|i: int| 0 <= i < v@.len() ==> answers_with_state(*f, v@[i], #[trigger] r@[i]),
        exists|ms: Seq<&mut S>| #[trigger] ms.len() == r@.len()
            && (forall|k: int| 0 <= k < ms.len() ==> call_ensures(*f, (#[trigger] ms[k], v@[k]), r@[k]))
            && (ms.len() > 0 ==> *ms[0] == start)
            && (forall|k: int| 0 <= k < ms.len() - 1 ==> *final(#[trigger] ms[k]) == *ms[k + 1]),
{
    let ghost s = v@;
    let mut state = start;
    let mut out: Vec<R> = Vec::new();
    proof {
        let e = Seq::<&mut S>::empty();
        assert(e.len() == out@.len());
    }
    for x in it: v.into_iter()
        invariant
            it.seq() == s,
            forall|ms: Seq<&mut S>, ys: Seq<R>, m: &mut S|
                #![trigger call_requires(*f, (m, s[ms.len() as int])), ys.len()]
                ms.len() < s.len() && ys.len() == ms.len() && (ms.len() > 0 ==> *ms[0] == start)
                && (forall|k: int| 0 <= k < ms.len() - 1 ==> *final(#[trigger] ms[k]) == *ms[k + 1])
                && (forall|k: int| 0 <= k < ms.len() ==> call_ensures(*f, (#[trigger] ms[k], s[k]), ys[k]))
                && *m == (if ms.len() == 0 { start } else { *final(ms[ms.len() - 1]) })
                ==> call_requires(*f, (m, s[ms.len() as int])),
            out@.len() == it.index(),
            exists|ms: Seq<&mut S>| #[trigger] ms.len() == out@.len()
                && (ms.len() > 0 ==> *ms[0] == start)
                && (ms.len() == 0 ==> state == start)
                && (ms.len() > 0 ==> *final(ms[ms.len() - 1]) == state)
                && (forall|k: int| 0 <= k < ms.len() - 1 ==> *final(#[trigger] ms[k]) == *ms[k + 1])
                && (forall|k: int| 0 <= k < ms.len() ==> call_ensures(*f, (#[trigger] ms[k], s[k]), out@[k])),
    {
        let ghost i = it.index();
        let ghost st0 = state;
        let ghost out0 = out@;
        assert(x == s[i]);
        proof {
            let ms = choose|ms: Seq<&mut S>| #[trigger] ms.len() == out0.len()
                && (ms.len() > 0 ==> *ms[0] == start)
                && (ms.len() == 0 ==> st0 == start)
                && (ms.len() > 0 ==> *final(ms[ms.len() - 1]) == st0)
                && (forall|k: int| 0 <= k < ms.len() - 1 ==> *final(#[trigger] ms[k]) == *ms[k + 1])
                && (forall|k: int| 0 <= k < ms.len() ==> call_ensures(*f, (#[trigger] ms[k], s[k]), out0[k]));
            assert forall|m: &mut S| *m == st0 implies call_requires(*f, (m, s[ms.len() as int])) by {
                assert(out0.len() == ms.len());
            }
        }
        let y = f(&mut state, x);
        assert(exists|m: &mut S| *m == st0 && *final(m) == state && call_ensures(*f, (m, s[i]), y));
        out.push(y);
        proof {
            let ms = choose|ms: Seq<&mut S>| #[trigger] ms.len() == out0.len()
                && (ms.len() > 0 ==> *ms[0] == start)
                && (ms.len() == 0 ==> st0 == start)
                && (ms.len() > 0 ==> *final(ms[ms.len() - 1]) == st0)
                && (forall|k: int| 0 <= k < ms.len() - 1 ==> *final(#[trigger] ms[k]) == *ms[k + 1])
                && (forall|k: int| 0 <= k < ms.len() ==> call_ensures(*f, (#[trigger] ms[k], s[k]), out0[k]));
            let m = choose|m: &mut S| *m == st0 && *final(m) == state && call_ensures(*f, (m, s[i]), y);
            let ms2 = ms.push(m);
            assert(ms2[ms2.len() - 1] == m);
            assert forall|k: int| 0 <= k < ms2.len() - 1 implies *final(#[trigger] ms2[k]) == *ms2[k + 1] by {
                if k < ms.len() - 1 {
                    assert(ms2[k] == ms[k] && ms2[k + 1] == ms[k + 1]);
                } else {
                    assert(ms2[k] == ms[k] && ms2[k + 1] == m);
                }
            }
            assert forall|k: int| 0 <= k < ms2.len() implies call_ensures(*f, (#[trigger] ms2[k], s[k]), out@[k]) by {
                if k < ms.len() {
                    assert(ms2[k] == ms[k]);
                    assert(out@[k] == out0[k]);
                }
            }
            assert(ms2.len() == out@.len());
        }
    }
    proof {
        let ms = choose|ms: Seq<&mut S>| #[trigger] ms.len() == out@.len()
            && (ms.len() > 0 ==> *ms[0] == start)
            && (ms.len() == 0 ==> state == start)
            && (ms.len() > 0 ==> *final(ms[ms.len() - 1]) == state)
            && (forall|k: int| 0 <= k < ms.len() - 1 ==> *final(#[trigger] ms[k]) == *ms[k + 1])
            && (forall|k: int| 0 <= k < ms.len() ==> call_ensures(*f, (#[trigger] ms[k], s[k]), out@[k]));
        assert forall|k: int| 0 <= k < s.len() implies answers_with_state(*f, s[k], #[trigger] out@[k]) by {
            assert(call_ensures(*f, (ms[k], s[k]), out@[k]));
        }
    }
    out
}

/// Folding from one allowed start makes only calls that `fold_steps_callable` allows.
pub(crate) proof fn lemma_steps_from_start<T, U, F: Fn(U, T) -> U>(
    start_ok: spec_fn(U) -> bool,
    op: F,
    s: Seq<T>,
    init: U,
)
    requires
        start_ok(init),
        fold_steps_callable(start_ok, op, s, false),
    ensures
        forall|k: int, w: U| 0 <= k < s.len() && #[trigger] folds(op, init, s.take(k), w) ==> call_requires(op, (w, s[k])),
{
    assert forall|k: int, w: U| 0 <= k < s.len() && #[trigger] folds(op, init, s.take(k), w) implies call_requires(op, (w, s[k])) by {
        assert(s.subrange(0, k) =~= s.take(k));
        assert(folds_from(start_ok, op, s.subrange(0, k), w));
    }
}

/// Folds the items of `v` in order with `op`, starting from `init`.
pub(crate) fn fold_serial<T, U, F: Fn(U, T) -> U>(v: Vec<T>, init: U, op: &F) -> (r: U)
    requires
        forall|k: int, w: U| 0 <= k < v@.len() && #[trigger] folds(*op, init, v@.take(k), w) ==> call_requires(*op, (w, v@[k])),
    ensures
        folds(*op, init, v@, r),
{
    let ghost s = v@;
    let mut acc = init;
    let ghost mut accs: Seq<U> = seq![init];
    for x in it: v.into_iter()
        invariant
            it.seq() == s,
            forall|k: int, w: U| 0 <= k < s.len() && #[trigger] folds(*op, init, s.take(k), w) ==> call_requires(*op, (w, s[k])),
            fold_trace(*op, init, s.take(it.index() as int), accs),
            accs.last() == acc,
    {
        let ghost i = it.index() as int;
        proof { lemma_take_push(s, i); }
        let ghost prev = acc;
        assert(folds(*op, init, s.take(i), acc));
        assert(x == s[i]);
        acc = op(acc, x);
        proof { accs = accs.push(acc); }
        assert(fold_trace(*op, init, s.take(i + 1), accs)) by {
            assert forall|k: int| 0 <= k < i + 1 implies call_ensures(*op, (accs[k], s.take(i + 1)[k]), #[trigger] accs[k + 1]) by {
                if k < i {
                    assert(accs[k + 1] == accs.drop_last()[k + 1]);
                }
            }
        }
    }
    proof {
        assert(s.take(s.len() as int) =~= s);
        assert(fold_trace(*op, init, s, accs));
    }
    acc
}

impl<T> CondIterator<T> {
    /// Whether the items are processed in parallel.
    pub closed spec fn parallel_mode(&self) -> bool {
        self.parallel
    }

    /// Whether the number of items is known before they are produced: it is for a
    /// collection, and the adaptors that keep one item per item (or pair, number,
    /// reverse, cut or interleave items by place) keep it; filtering and flattening
    /// lose it (serially, unless there are no items), as do handing serial items to
    /// rayon and a parallel fold, while a serial fold gives exactly one value.
    pub closed spec fn len_known(&self) -> bool {
        self.known_len
    }

    /// The items, the mode and whether the length is known, read from the fields.
    pub(crate) proof fn lemma_fields(&self)
        ensures
            self@ == self.items@,
            self.parallel_mode() == self.parallel,
            self.len_known() == self.known_len,
    {
    }

    /// Holds `items`, processed in parallel or serially as `parallel` says.
    pub fn new(items: Vec<T>, parallel: bool) -> (r: Self)
        ensures
            r@ == items@,
            r.parallel_mode() == parallel,
            r.len_known(),
    {
        if parallel {
            Self::from_par_iter(items)
        } else {
            Self::from_iter(items)
        }
    }

    /// Holds `items`, processed in parallel.
    pub fn from_par_iter(items: Vec<T>) -> (r: Self)
        ensures
            r@ == items@,
            r.parallel_mode(),
            r.len_known(),
    {
        CondIterator { known_len: true, items, parallel: true }
    }

    /// Holds `items`, processed serially.
    pub fn from_iter(items: Vec<T>) -> (r: Self)
        ensures
            r@ == items@,
            !r.parallel_mode(),
            r.len_known(),
    {
        CondIterator { known_len: true, items, parallel: false }
    }

    /// Whether the items are processed in parallel.
    pub fn is_parallel(&self) -> (r: bool)
        ensures
            r == self.parallel_mode(),
    {
        match self.parallel {
            true => true,
            _ => false,
        }
    }

    /// Whether the items are processed serially.
    pub fn is_serial(&self) -> (r: bool)
        ensures
            r == !self.parallel_mode(),
    {
        match self.parallel {
            false => true,
            _ => false,
        }
    }
}

impl<T: Send> CondIterator<T> {
    /// The same items, to be processed in parallel from now on. Serial items are handed
    /// to rayon's `par_bridge`, whose threads take them in no set order: the result then
    /// holds the same items, each as often.
    pub fn into_parallel(self) -> (r: CondIterator<T>)
        ensures
            r.parallel_mode(),
            r.len_known() == (self.parallel_mode() && self.len_known()),
            self.parallel_mode() ==> r@ == self@,
            r@.to_multiset() == self@.to_multiset(),
    {
        if self.parallel {
            self
        } else {
            CondIterator { known_len: false, items: par_bridge_collect(self.items), parallel: true }
        }
    }

    /// Applies `f` to each item.
    pub fn map<R: Send, F: Fn(T) -> R + Sync + Send>(self, f: F) -> (r: CondIterator<R>)
        requires
            callable_on(f, self@),
        ensures
            mapped(f, self@, r@),
            r.parallel_mode() == self.parallel_mode(),
            r.len_known() == self.len_known(),
    {
        if self.parallel {
            CondIterator { known_len: self.known_len, items: par_map(self.items, f), parallel: true }
        } else {
            let ghost s = self@;
            let mut out: Vec<R> = Vec::new();
            for x in it: self.items.into_iter()
                invariant
                    it.seq() == s,
                    callable_on(f, s),
                    out@.len() == it.index(),
                    forall|k: int| 0 <= k < it.index() ==> call_ensures(f, (s[k],), #[trigger] out@[k]),
            {
                out.push(f(x));
            }
            CondIterator { known_len: self.known_len, items: out, parallel: false }
        }
    }

    /// Applies `f` to each item with a state by `&mut`, giving for each item what `f`
    /// answered on it. Serially one state, starting as `init`, runs through all the calls
    /// in order; in parallel each piece that rayon cuts starts from a value reached from
    /// `init` by clones and runs through the calls on its items in order. Serially `f` need
    /// only accept the states that the calls before it leave; in parallel, any state.
    pub fn map_with<S: Send + Clone, R: Send, F: Fn(&mut S, T) -> R + Sync + Send>(self, init: S, f: F) -> (r: CondIterator<R>)
        requires
            self.parallel_mode() ==> state_callable_on(f, self@),
            !self.parallel_mode() ==> forall|ms: Seq<&mut S>, ys: Seq<R>, m: &mut S|
                #![trigger call_requires(f, (m, self@[ms.len() as int])), ys.len()]
                ms.len() < self@.len() && ys.len() == ms.len() && (ms.len() > 0 ==> *ms[0] == init)
                && (forall|k: int| 0 <= k < ms.len() - 1 ==> *final(#[trigger] ms[k]) == *ms[k + 1])
                && (forall|k: int| 0 <= k < ms.len() ==> call_ensures(f, (#[trigger] ms[k], self@[k]), ys[k]))
                && *m == (if ms.len() == 0 { init } else { *final(ms[ms.len() - 1]) })
                ==> call_requires(f, (m, self@[ms.len() as int])),
        ensures
            r.parallel_mode() == self.parallel_mode(),
            r.len_known() == self.len_known(),
            r@.len() == self@.len(),
            forall|i: int| 0 <= i < self@.len() ==> answers_with_state(f, self@[i], #[trigger] r@[i]),
            exists|ms: Seq<&mut S>| #[trigger] ms.len() == r@.len()
                && (forall|k: int| 0 <= k < ms.len() ==> call_ensures(f, (#[trigger] ms[k], self@[k]), r@[k]))
                && (ms.len() > 0 ==> (if self.parallel_mode() { reached_by_clones(init, *ms[0]) } else { *ms[0] == init }))
                && (forall|k: int| 0 <= k < ms.len() - 1 ==> *final(#[trigger] ms[k]) == *ms[k + 1]
                    || (self.parallel_mode() && reached_by_clones(init, *ms[k + 1]))),
    {
        proof { self.lemma_fields(); }
        if self.parallel {
            CondIterator { known_len: self.known_len, items: par_map_with(self.items, init, f), parallel: true }
        } else {
            CondIterator { known_len: self.known_len, items: thread_state(self.items, init, &f), parallel: false }
        }
    }

    /// Applies `f` to each item with a state by `&mut`, made by `init`, giving for each
    /// item what `f` answered on it. Serially `init` is called once and its value runs
    /// through all the calls in order; in parallel each piece that rayon cuts starts from
    /// a value of `init()` and runs through the calls on its items in order. Serially `f`
    /// need only accept the states that the calls before it leave; in parallel, any state.
    pub fn map_init<S, R: Send, I: Fn() -> S + Sync + Send, F: Fn(&mut S, T) -> R + Sync + Send>(
        self,
        init: I,
        f: F,
    ) -> (r: CondIterator<R>)
        requires
            call_requires(init, ()),
            self.parallel_mode() ==> state_callable_on(f, self@),
            !self.parallel_mode() ==> forall|st: S| #[trigger] call_ensures(init, (), st) ==> forall|ms: Seq<&mut S>, ys: Seq<R>, m: &mut S|
                    #![trigger call_requires(f, (m, self@[ms.len() as int])), ys.len()]
                    ms.len() < self@.len() && ys.len() == ms.len() && (ms.len() > 0 ==> *ms[0] == st)
                    && (forall|k: int| 0 <= k < ms.len() - 1 ==> *final(#[trigger] ms[k]) == *ms[k + 1])
                    && (forall|k: int| 0 <= k < ms.len() ==> call_ensures(f, (#[trigger] ms[k], self@[k]), ys[k]))
                    && *m == (if ms.len() == 0 { st } else { *final(ms[ms.len() - 1]) })
                    ==> call_requires(f, (m, self@[ms.len() as int])),
        ensures
            r.parallel_mode() == self.parallel_mode(),
            r.len_known() == self.len_known(),
            r@.len() == self@.len(),
            forall|i: int| 0 <= i < self@.len() ==> answers_with_state(f, self@[i], #[trigger] r@[i]),
            exists|ms: Seq<&mut S>| #[trigger] ms.len() == r@.len()
                && (forall|k: int| 0 <= k < ms.len() ==> call_ensures(f, (#[trigger] ms[k], self@[k]), r@[k]))
                && (ms.len() > 0 ==> call_ensures(init, (), *ms[0]))
                && (forall|k: int| 0 <= k < ms.len() - 1 ==> *final(#[trigger] ms[k]) == *ms[k + 1]
                    || (self.parallel_mode() && call_ensures(init, (), *ms[k + 1]))),
    {
        proof { self.lemma_fields(); }
        if self.parallel {
            CondIterator { known_len: self.known_len, items: par_map_init(self.items, init, f), parallel: true }
        } else {
            let start = init();
            CondIterator { known_len: self.known_len, items: thread_state(self.items, start, &f), parallel: false }
        }
    }

    /// Calls `f` on a reference to each item; the items are kept.
    pub fn inspect<F: Fn(&T) + Sync + Send>(self, f: F) -> (r: CondIterator<T>)
        requires
            ref_callable_on(f, self@),
        ensures
            r@ == self@,
            r.parallel_mode() == self.parallel_mode(),
            r.len_known() == self.len_known(),
    {
        if self.parallel {
            CondIterator { known_len: self.known_len, items: par_inspect(self.items, f), parallel: true }
        } else {
            let ghost s = self@;
            let mut out: Vec<T> = Vec::new();
            for x in it: self.items.into_iter()
                invariant
                    it.seq() == s,
                    ref_callable_on(f, s),
                    out@ == s.take(it.index() as int),
            {
                proof { lemma_take_push(s, it.index() as int); }
                f(&x);
                out.push(x);
            }
            proof { assert(s.take(s.len() as int) =~= s); }
            CondIterator { known_len: self.known_len, items: out, parallel: false }
        }
    }

    /// Calls `f` on each item by `&mut`; each item becomes what the call left of it: for
    /// each item a borrow of it, on which `f` was called, whose final value is the new item.
    pub fn update<F: Fn(&mut T) + Sync + Send>(self, f: F) -> (r: CondIterator<T>)
        requires
            mut_callable_on(f, self@),
        ensures
            r.parallel_mode() == self.parallel_mode(),
            r.len_known() == self.len_known(),
            r@.len() == self@.len(),
            exists|ms: Seq<&mut T>| #[trigger] ms.len() == r@.len() && (forall|k: int| 0 <= k < r@.len() ==> *final(#[trigger] ms[k]) == r@[k] && *ms[k] == self@[k] && call_ensures(f, (ms[k],), ())),
    {
        if self.parallel {
            CondIterator { known_len: self.known_len, items: par_update(self.items, f), parallel: true }
        } else {
            CondIterator { known_len: self.known_len, items: ser_update(self.items, f), parallel: false }
        }
    }

    /// Keeps the items on which `pred` answers `true`, in order.
    pub fn filter<F: Fn(&T) -> bool + Sync + Send>(self, pred: F) -> (r: CondIterator<T>)
        requires
            ref_callable_on(pred, self@),
        ensures
            filtered(pred, self@, r@),
            r.parallel_mode() == self.parallel_mode(),
            r.len_known() == (!self.parallel_mode() && self.len_known() && self@.len() == 0),
    {
        if self.parallel {
            CondIterator { known_len: false, items: par_filter(self.items, pred), parallel: true }
        } else {
            let known: bool = self.known_len && self.items.len() == 0;
            let ghost s = self@;
            let ghost mut keep: Seq<bool> = Seq::empty();
            let mut out: Vec<T> = Vec::new();
            for x in it: self.items.into_iter()
                invariant
                    it.seq() == s,
                    ref_callable_on(pred, s),
                    ref_mapped(pred, s.take(it.index() as int), keep),
                    out@ == select(s.take(it.index() as int), keep),
            {
                let ghost i = it.index() as int;
                proof {
                    lemma_take_push(s, i);
                    lemma_select_push(s.take(i), keep, s[i], true);
                    lemma_select_push(s.take(i), keep, s[i], false);
                }
                let b = pred(&x);
                proof { keep = keep.push(b); }
                if b {
                    out.push(x);
                }
                assert(ref_mapped(pred, s.take(i + 1), keep));
            }
            proof { assert(s.take(s.len() as int) =~= s); }
            CondIterator { known_len: known, items: out, parallel: false }
        }
    }

    /// Applies `f` to each item and keeps the `Some` answers, in order.
    pub fn filter_map<R: Send, F: Fn(T) -> Option<R> + Sync + Send>(self, f: F) -> (r: CondIterator<R>)
        requires
            callable_on(f, self@),
        ensures
            filter_mapped(f, self@, r@),
            r.parallel_mode() == self.parallel_mode(),
            r.len_known() == (!self.parallel_mode() && self.len_known() && self@.len() == 0),
    {
        if self.parallel {
            CondIterator { known_len: false, items: par_filter_map(self.items, f), parallel: true }
        } else {
            let known: bool = self.known_len && self.items.len() == 0;
            let ghost s = self@;
            let ghost mut outs: Seq<Option<R>> = Seq::empty();
            let mut out: Vec<R> = Vec::new();
            for x in it: self.items.into_iter()
                invariant
                    it.seq() == s,
                    callable_on(f, s),
                    mapped(f, s.take(it.index() as int), outs),
                    out@ == somes(outs),
            {
                let ghost i = it.index() as int;
                proof { lemma_take_push(s, i); }
                let o = f(x);
                proof {
                    lemma_somes_push(outs, o);
                    outs = outs.push(o);
                }
                match o {
                    Some(y) => out.push(y),
                    None => {},
                }
                assert(mapped(f, s.take(i + 1), outs));
            }
            proof { assert(s.take(s.len() as int) =~= s); }
            CondIterator { known_len: known, items: out, parallel: false }
        }
    }


    /// Applies `f` to each item and concatenates the answers, in order.
    pub fn flat_map<R: Send, F: Fn(T) -> Vec<R> + Sync + Send>(self, f: F) -> (r: CondIterator<R>)
        requires
            callable_on(f, self@),
        ensures
            flat_mapped(f, self@, r@),
            r.parallel_mode() == self.parallel_mode(),
            r.len_known() == (!self.parallel_mode() && self.len_known() && self@.len() == 0),
    {
        if self.parallel {
            CondIterator { known_len: false, items: par_flat_map(self.items, f), parallel: true }
        } else {
            let known: bool = self.known_len && self.items.len() == 0;
            let ghost s = self@;
            let ghost mut outs: Seq<Vec<R>> = Seq::empty();
            let mut out: Vec<R> = Vec::new();
            for x in it: self.items.into_iter()
                invariant
                    it.seq() == s,
                    callable_on(f, s),
                    mapped(f, s.take(it.index() as int), outs),
                    out@ == concat_vecs(outs),
            {
                let ghost i = it.index() as int;
                proof { lemma_take_push(s, i); }
                let mut v = f(x);
                proof {
                    lemma_concat_vecs_push(outs, v);
                    outs = outs.push(v);
                }
                out.append(&mut v);
                assert(mapped(f, s.take(i + 1), outs));
            }
            proof { assert(s.take(s.len() as int) =~= s); }
            CondIterator { known_len: known, items: out, parallel: false }
        }
    }

    /// The items followed by those of `other`.
    pub fn chain(self, other: Vec<T>) -> (r: CondIterator<T>)
        ensures
            r@ == self@ + other@,
            r.parallel_mode() == self.parallel_mode(),
            r.len_known() == self.len_known(),
    {
        if self.parallel {
            CondIterator { known_len: self.known_len, items: par_chain(self.items, other), parallel: true }
        } else {
            let mut items = self.items;
            let mut other = other;
            items.append(&mut other);
            CondIterator { known_len: self.known_len, items, parallel: false }
        }
    }

    /// Each item with its place.
    pub fn enumerate(self) -> (r: CondIterator<(usize, T)>)
        ensures
            r@ == enumerate_of(self@),
            r.parallel_mode() == self.parallel_mode(),
            r.len_known() == self.len_known(),
    {
        if self.parallel {
            CondIterator { known_len: self.known_len, items: par_enumerate(self.items), parallel: true }
        } else {
            let ghost s = self@;
            let mut out: Vec<(usize, T)> = Vec::new();
            let len = self.items.len();
            let mut i: usize = 0;
            for x in it: self.items.into_iter()
                invariant
                    it.seq() == s,
                    s.len() == len,
                    i == it.index(),
                    out@ == enumerate_of(s.take(i as int)),
            {
                proof { lemma_take_push(s, i as int); }
                out.push((i, x));
                i = i + 1;
                assert(out@ =~= enumerate_of(s.take(i as int)));
            }
            proof { assert(s.take(s.len() as int) =~= s); }
            CondIterator { known_len: self.known_len, items: out, parallel: false }
        }
    }

    /// All but the first `n` items.
    pub fn skip(self, n: usize) -> (r: CondIterator<T>)
        ensures
            r@ == skip_of(self@, n as int),
            r.parallel_mode() == self.parallel_mode(),
            r.len_known() == self.len_known(),
    {
        if self.parallel {
            CondIterator { known_len: self.known_len, items: par_skip(self.items, n), parallel: true }
        } else {
            let ghost s = self@;
            let mut out: Vec<T> = Vec::new();
            let len = self.items.len();
            let mut i: usize = 0;
            for x in it: self.items.into_iter()
                invariant
                    it.seq() == s,
                    s.len() == len,
                    i == it.index(),
                    out@ == skip_of(s.take(i as int), n as int),
            {
                proof { lemma_take_push(s, i as int); }
                if i >= n {
                    out.push(x);
                }
                i = i + 1;
                assert(out@ =~= skip_of(s.take(i as int), n as int));
            }
            proof { assert(s.take(s.len() as int) =~= s); }
            CondIterator { known_len: self.known_len, items: out, parallel: false }
        }
    }

    /// The first `n` items.
    pub fn take(self, n: usize) -> (r: CondIterator<T>)
        ensures
            r@ == take_of(self@, n as int),
            r.parallel_mode() == self.parallel_mode(),
            r.len_known() == self.len_known(),
    {
        if self.parallel {
            CondIterator { known_len: self.known_len, items: par_take(self.items, n), parallel: true }
        } else {
            let ghost s = self@;
            let mut out: Vec<T> = Vec::new();
            let len = self.items.len();
            let mut i: usize = 0;
            for x in it: self.items.into_iter()
                invariant
                    it.seq() == s,
                    s.len() == len,
                    i == it.index(),
                    out@ == take_of(s.take(i as int), n as int),
            {
                proof { lemma_take_push(s, i as int); }
                if i < n {
                    out.push(x);
                }
                i = i + 1;
                assert(out@ =~= take_of(s.take(i as int), n as int));
            }
            proof { assert(s.take(s.len() as int) =~= s); }
            CondIterator { known_len: self.known_len, items: out, parallel: false }
        }
    }

    /// The items in reverse order.
    pub fn rev(self) -> (r: CondIterator<T>)
        ensures
            r@ == reverse_of(self@),
            r.parallel_mode() == self.parallel_mode(),
            r.len_known() == self.len_known(),
    {
        if self.parallel {
            CondIterator { known_len: self.known_len, items: par_rev(self.items), parallel: true }
        } else {
            CondIterator { known_len: self.known_len, items: reversed(self.items), parallel: false }
        }
    }


    /// Folds the items with `fold_op`: serially into one value, from a value of
    /// `identity()`; in parallel into one value per piece that rayon cuts, each from a
    /// value of `identity()`, in order.
    pub fn fold<U: Send, ID: Fn() -> U + Sync + Send, F: Fn(U, T) -> U + Sync + Send>(
        self,
        identity: ID,
        fold_op: F,
    ) -> (r: CondIterator<U>)
        requires
            call_requires(identity, ()),
            fold_steps_callable(made_by(identity), fold_op, self@, self.parallel_mode()),
        ensures
            chunk_folds(made_by(identity), fold_op, self@, r@),
            !self.parallel_mode() ==> r@.len() == 1,
            r.parallel_mode() == self.parallel_mode(),
            r.len_known() == !self.parallel_mode(),
    {
        if self.parallel {
            CondIterator { known_len: false, items: par_fold(self.items, identity, fold_op), parallel: true }
        } else {
            let ghost s = self@;
            let init = identity();
            let ghost init0 = init;
            proof { lemma_steps_from_start(made_by(identity), fold_op, s, init0); }
            let acc = fold_serial(self.items, init, &fold_op);
            proof {
                assert(made_by(identity)(init0));
                lemma_one_chunk(made_by(identity), fold_op, s, acc);
            }
            let mut out: Vec<U> = Vec::new();
            out.push(acc);
            assert(out@ =~= seq![acc]);
            CondIterator { known_len: true, items: out, parallel: false }
        }
    }

    /// Folds the items with `fold_op`: serially into one value, from `init`; in parallel
    /// into one value per piece that rayon cuts, each from a value reached from `init` by clones, in order.
    pub fn fold_with<U: Send + Clone, F: Fn(U, T) -> U + Sync + Send>(self, init: U, fold_op: F) -> (r: CondIterator<U>)
        requires
            fold_steps_callable(clone_of(init), fold_op, self@, self.parallel_mode()),
        ensures
            chunk_folds(clone_of(init), fold_op, self@, r@),
            !self.parallel_mode() ==> r@.len() == 1,
            r.parallel_mode() == self.parallel_mode(),
            r.len_known() == !self.parallel_mode(),
    {
        if self.parallel {
            CondIterator { known_len: false, items: par_fold_with(self.items, init, fold_op), parallel: true }
        } else {
            let ghost s = self@;
            let ghost init0 = init;
            proof {
                assert(is_clone_chain(init0, seq![init0]));
                lemma_steps_from_start(clone_of(init0), fold_op, s, init0);
            }
            let acc = fold_serial(self.items, init, &fold_op);
            proof {
                assert(is_clone_chain(init0, seq![init0]));
                assert(clone_of(init0)(init0));
                assert(folds_from(clone_of(init0), fold_op, s, acc));
                lemma_one_chunk(clone_of(init0), fold_op, s, acc);
            }
            let mut out: Vec<U> = Vec::new();
            out.push(acc);
            assert(out@ =~= seq![acc]);
            CondIterator { known_len: true, items: out, parallel: false }
        }
    }


    /// The items with a clone of `sep` between each two neighbours (in parallel, a value
    /// reached from `sep` by clones).
    pub fn intersperse(self, sep: T) -> (r: CondIterator<T>)
        where
            T: Clone,
        ensures
            interspersed(self@, sep, r@),
            r.parallel_mode() == self.parallel_mode(),
            r.len_known() == self.len_known(),
    {
        if self.parallel {
            CondIterator { known_len: self.known_len, items: par_intersperse(self.items, sep), parallel: true }
        } else {
            let ghost s = self@;
            let mut out: Vec<T> = Vec::new();
            let mut first = true;
            for x in it: self.items.into_iter()
                invariant
                    it.seq() == s,
                    first == (it.index() == 0),
                    interspersed(s.take(it.index() as int), sep, out@),
            {
                let ghost i = it.index() as int;
                let ghost out0 = out@;
                proof { lemma_take_push(s, i); }
                if !first {
                    let c = sep.clone();
                    assert(cloned(sep, c));
                    assert(is_clone_chain(sep, seq![sep, c]));
                    assert(reached_by_clones(sep, c));
                    out.push(c);
                }
                out.push(x);
                first = false;
                assert(interspersed(s.take(i + 1), sep, out@)) by {
                    let t = s.take(i + 1);
                    assert forall|k: int| 0 <= k < t.len() implies #[trigger] out@[2 * k] == t[k] by {
                        if k < i {
                            assert(out@[2 * k] == out0[2 * k]);
                        }
                    }
                    assert forall|k: int| 0 <= k < t.len() - 1 implies reached_by_clones(sep, #[trigger] out@[2 * k + 1]) by {
                        if k < i - 1 {
                            assert(out@[2 * k + 1] == out0[2 * k + 1]);
                        }
                    }
                }
            }
            proof { assert(s.take(s.len() as int) =~= s); }
            CondIterator { known_len: self.known_len, items: out, parallel: false }
        }
    }

    /// The items paired place by place with those of `other`, as far as the shorter goes.
    pub fn zip<U: Send>(self, other: Vec<U>) -> (r: CondIterator<(T, U)>)
        ensures
            r@ == zip_of(self@, other@),
            r.parallel_mode() == self.parallel_mode(),
            r.len_known() == self.len_known(),
    {
        if self.parallel {
            CondIterator { known_len: self.known_len, items: par_zip(self.items, other), parallel: true }
        } else {
            CondIterator { known_len: self.known_len, items: zip_serial(self.items, other), parallel: false }
        }
    }

    /// The items paired place by place with those of `other`, of the same length.
    pub fn zip_eq<U: Send>(self, other: Vec<U>) -> (r: CondIterator<(T, U)>)
        requires
            self@.len() == other@.len(),
        ensures
            r@ == zip_of(self@, other@),
            r.parallel_mode() == self.parallel_mode(),
            r.len_known() == self.len_known(),
    {
        if self.parallel {
            CondIterator { known_len: self.known_len, items: par_zip_eq(self.items, other), parallel: true }
        } else {
            CondIterator { known_len: self.known_len, items: zip_serial(self.items, other), parallel: false }
        }
    }

    /// The items and those of `other` alternately, starting with the items; once one runs
    /// out, the rest of the other.
    pub fn interleave(self, other: Vec<T>) -> (r: CondIterator<T>)
        ensures
            r@ == interleave_of(self@, other@),
            r.parallel_mode() == self.parallel_mode(),
            r.len_known() == self.len_known(),
    {
        if self.parallel {
            CondIterator { known_len: self.known_len, items: par_interleave(self.items, other), parallel: true }
        } else {
            CondIterator { known_len: self.known_len, items: interleave_serial(self.items, other, false), parallel: false }
        }
    }

    /// The items and those of `other` alternately, starting with the items, until the one
    /// whose turn it is has run out.
    pub fn interleave_shortest(self, other: Vec<T>) -> (r: CondIterator<T>)
        ensures
            r@ == interleave_shortest_of(self@, other@),
            r.parallel_mode() == self.parallel_mode(),
            r.len_known() == self.len_known(),
    {
        if self.parallel {
            CondIterator { known_len: self.known_len, items: par_interleave_shortest(self.items, other), parallel: true }
        } else {
            CondIterator { known_len: self.known_len, items: interleave_serial(self.items, other, true), parallel: false }
        }
    }
}

impl<'a, T: Clone + Send + Sync> CondIterator<&'a T> {
    /// A clone of each item.
    pub fn cloned(self) -> (r: CondIterator<T>)
        ensures
            r@.len() == self@.len(),
            forall|i: int| 0 <= i < self@.len() ==> cloned(*self@[i], #[trigger] r@[i]),
            r.parallel_mode() == self.parallel_mode(),
            r.len_known() == self.len_known(),
    {
        if self.parallel {
            CondIterator { known_len: self.known_len, items: par_cloned(self.items), parallel: true }
        } else {
            let ghost s = self@;
            let mut out: Vec<T> = Vec::new();
            for x in it: self.items.into_iter()
                invariant
                    it.seq() == s,
                    out@.len() == it.index(),
                    forall|k: int| 0 <= k < it.index() ==> cloned(*s[k], #[trigger] out@[k]),
            {
                let c = x.clone();
                assert(cloned(*x, c));
                out.push(c);
            }
            CondIterator { known_len: self.known_len, items: out, parallel: false }
        }
    }
}

impl<R: Send> CondIterator<Vec<R>> {
    /// The inner vectors, one after another.
    pub fn flatten(self) -> (r: CondIterator<R>)
        ensures
            r@ == concat_vecs(self@),
            r.parallel_mode() == self.parallel_mode(),
            r.len_known() == (!self.parallel_mode() && self.len_known() && self@.len() == 0),
    {
        if self.parallel {
            CondIterator { known_len: false, items: par_flatten(self.items), parallel: true }
        } else {
            let known: bool = self.known_len && self.items.len() == 0;
            let ghost s = self@;
            let mut out: Vec<R> = Vec::new();
            for v in it: self.items.into_iter()
                invariant
                    it.seq() == s,
                    out@ == concat_vecs(s.take(it.index() as int)),
            {
                let ghost i = it.index() as int;
                proof {
                    lemma_take_push(s, i);
                    lemma_concat_vecs_push(s.take(i), v);
                }
                let mut v = v;
                out.append(&mut v);
            }
            proof { assert(s.take(s.len() as int) =~= s); }
            CondIterator { known_len: known, items: out, parallel: false }
        }
    }
}

impl<T: Send> CondIterator<Option<T>> {
    /// The values of the `Some` items, halting at a `None`: serially exactly those before
    /// the first `None`; in parallel each piece that rayon cuts halts at its first `None`
    /// or as soon as any piece has met one, so some of the `Some` values in order, and all
    /// of them when there is no `None`.
    pub fn while_some(self) -> (r: CondIterator<T>)
        ensures
            is_subseq(r@, somes(self@)),
            all_some(self@) ==> r@ == somes(self@),
            !self.parallel_mode() ==> r@ == leading_somes(self@),
            r.parallel_mode() == self.parallel_mode(),
            r.len_known() == (!self.parallel_mode() && self.len_known() && self@.len() == 0),
    {
        if self.parallel {
            CondIterator { known_len: false, items: par_while_some(self.items), parallel: true }
        } else {
            let known: bool = self.known_len && self.items.len() == 0;
            let ghost s = self@;
            let mut out: Vec<T> = Vec::new();
            let mut done = false;
            let ghost mut p: int = 0;
            for x in it: self.items.into_iter()
                invariant
                    it.seq() == s,
                    !done ==> p == it.index() && forall|k: int| 0 <= k < it.index() ==> (#[trigger] s[k]) is Some,
                    done ==> is_run_end(s, p) && p < it.index(),
                    out@ == somes(s.take(p)),
            {
                let ghost i = it.index() as int;
                proof {
                    lemma_take_push(s, i);
                    lemma_somes_push(s.take(i), s[i]);
                }
                if !done {
                    match x {
                        Some(y) => {
                            out.push(y);
                            proof { p = i + 1; }
                        },
                        None => {
                            done = true;
                            assert(is_run_end(s, p));
                        },
                    }
                }
            }
            proof {
                if !done {
                    assert(is_run_end(s, s.len() as int));
                }
                lemma_leading_somes(s, p);
            }
            CondIterator { known_len: known, items: out, parallel: false }
        }
    }
}

/// What remains to be produced when interleaving the rest `ra` of one side and the rest
/// `rb` of the other, `turn_a` telling whose turn it is.
spec fn interleave_rest<T>(shortest: bool, turn_a: bool, ra: Seq<T>, rb: Seq<T>) -> Seq<T> {
    if shortest {
        if turn_a { interleave_shortest_of(ra, rb) } else { interleave_shortest_of(rb, ra) }
    } else {
        if turn_a { interleave_of(ra, rb) } else { interleave_of(rb, ra) }
    }
}

/// The items of `v` and `w` alternately, starting with `v`; once the one whose turn it is
/// has run out, the rest of the other, or nothing when `shortest`.
pub(crate) fn interleave_serial<T>(v: Vec<T>, w: Vec<T>, shortest: bool) -> (r: Vec<T>)
    ensures
        shortest ==> r@ == interleave_shortest_of(v@, w@),
        !shortest ==> r@ == interleave_of(v@, w@),
{
    let ghost target = interleave_rest(shortest, true, v@, w@);
    let mut sa = reversed(v);
    let mut sb = reversed(w);
    proof {
        lemma_reverse_reverse(v@);
        lemma_reverse_reverse(w@);
    }
    let mut out: Vec<T> = Vec::new();
    let mut turn_a = true;
    assert(out@ + interleave_rest(shortest, turn_a, reverse_of(sa@), reverse_of(sb@)) =~= target);
    let mut stop = false;
    while !stop && (sa.len() > 0 || sb.len() > 0)
        invariant
            out@ + interleave_rest(shortest, turn_a, reverse_of(sa@), reverse_of(sb@)) == target,
            stop ==> interleave_rest(shortest, turn_a, reverse_of(sa@), reverse_of(sb@)).len() == 0,
        decreases (sa@.len() + sb@.len()) * 4 + (if stop { 0int } else { 2int })
            + (if (turn_a && sa@.len() == 0) || (!turn_a && sb@.len() == 0) { 1int } else { 0int }),
    {
        let ghost ra = reverse_of(sa@);
        let ghost rb = reverse_of(sb@);
        let ghost out0 = out@;
        if turn_a {
            if sa.len() > 0 {
                proof { lemma_reverse_pop(sa@); }
                let x = sa.pop().unwrap();
                out.push(x);
                assert(out@ =~= out0 + seq![ra[0]]);
                assert(interleave_rest(shortest, true, ra, rb) == seq![ra[0]] + interleave_rest(shortest, false, ra.drop_first(), rb));
                assert(out@ + interleave_rest(shortest, false, ra.drop_first(), rb) =~= out0 + interleave_rest(shortest, true, ra, rb));
                turn_a = false;
            } else if shortest {
                stop = true;
            } else {
                proof {
                    lemma_interleave_empty(rb);
                    assert(ra =~= Seq::<T>::empty());
                }
                turn_a = false;
            }
        } else {
            if sb.len() > 0 {
                proof { lemma_reverse_pop(sb@); }
                let x = sb.pop().unwrap();
                out.push(x);
                assert(out@ =~= out0 + seq![rb[0]]);
                assert(interleave_rest(shortest, false, ra, rb) == seq![rb[0]] + interleave_rest(shortest, true, ra, rb.drop_first()));
                assert(out@ + interleave_rest(shortest, true, ra, rb.drop_first()) =~= out0 + interleave_rest(shortest, false, ra, rb));
                turn_a = true;
            } else if shortest {
                stop = true;
            } else {
                proof {
                    lemma_interleave_empty(ra);
                    assert(rb =~= Seq::<T>::empty());
                }
                turn_a = true;
            }
        }
    }
    proof {
        if !stop {
            assert(reverse_of(sa@) =~= Seq::<T>::empty());
            assert(reverse_of(sb@) =~= Seq::<T>::empty());
            lemma_interleave_empty(Seq::<T>::empty());
        }
        assert(out@ =~= target);
    }
    out
}

/// Pairs the items of `v` and `w` place by place, as far as the shorter goes.
pub(crate) fn zip_serial<T, U>(v: Vec<T>, w: Vec<U>) -> (r: Vec<(T, U)>)
    ensures
        r@ == zip_of(v@, w@),
{
    let ghost s = v@;
    let ghost t = w@;
    let mut stack = reversed(w);
    let mut out: Vec<(T, U)> = Vec::new();
    for x in it: v.into_iter()
        invariant
            it.seq() == s,
            it.index() <= t.len() ==> stack@.len() == t.len() - it.index(),
            it.index() > t.len() ==> stack@.len() == 0,
            forall|j: int| 0 <= j < stack@.len() ==> #[trigger] stack@[j] == t[t.len() - 1 - j],
            out@ == zip_of(s.take(it.index() as int), t),
    {
        let ghost i = it.index() as int;
        let ghost out0 = out@;
        if stack.len() > 0 {
            let y = stack.pop().unwrap();
            out.push((x, y));
        }
        assert(out@ =~= zip_of(s.take(i + 1), t));
    }
    proof { assert(s.take(s.len() as int) =~= s); }
    out
}


} // verus!
