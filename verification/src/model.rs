//! The mathematical model that the contracts of `CondIterator` speak of.
//!
//! A user's closure is a relation to Verus: `call_ensures(f, args, out)` says that `out`
//! is an answer that `f` may give on `args`. Every relation below is stated over such
//! answers, so that a contract pins the result down exactly when the closures are
//! deterministic, and says what holds of every outcome otherwise.
use vstd::prelude::*;
use crate::side::Either;
use std::cmp::Ordering;

verus! {

// ---------------------------------------------------------------------------
// Calling closures on every item

/// `f` may be called on each item of `s`.
pub open spec fn callable_on<A, B, F: Fn(A) -> B>(f: F, s: Seq<A>) -> bool {
    forall|i: int| 0 <= i < s.len() ==> call_requires(f, (#[trigger] s[i],))
}

/// `f` may be called on a reference to each item of `s`.
pub open spec fn ref_callable_on<A, B, F: Fn(&A) -> B>(f: F, s: Seq<A>) -> bool {
    forall|i: int| 0 <= i < s.len() ==> call_requires(f, (&#[trigger] s[i],))
}

/// `r` is what applying `f` to each item of `s`, in order, may give.
pub open spec fn mapped<A, B, F: Fn(A) -> B>(f: F, s: Seq<A>, r: Seq<B>) -> bool {
    &&& r.len() == s.len()
    &&& forall|i: int| 0 <= i < s.len() ==> call_ensures(f, (s[i],), #[trigger] r[i])
}

/// `r` is what applying `f` to a reference to each item of `s`, in order, may give.
pub open spec fn ref_mapped<A, B, F: Fn(&A) -> B>(f: F, s: Seq<A>, r: Seq<B>) -> bool {
    &&& r.len() == s.len()
    &&& forall|i: int| 0 <= i < s.len() ==> call_ensures(f, (&s[i],), #[trigger] r[i])
}

// ---------------------------------------------------------------------------
// Selecting items

/// The items of `s` whose flag in `keep` is set, in order.
pub open spec fn select<A>(s: Seq<A>, keep: Seq<bool>) -> Seq<A>
    decreases s.len(),
{
    if s.len() == 0 {
        Seq::empty()
    } else if keep[s.len() - 1] {
        select(s.drop_last(), keep.drop_last()).push(s.last())
    } else {
        select(s.drop_last(), keep.drop_last())
    }
}

/// Every flag of `keep`, negated.
pub open spec fn negate(keep: Seq<bool>) -> Seq<bool> {
    keep.map_values(|b: bool| !b)
}

/// `r` is what keeping the items of `s` on which `pred` answers `true` may give.
pub open spec fn filtered<A, F: Fn(&A) -> bool>(pred: F, s: Seq<A>, r: Seq<A>) -> bool {
    exists|keep: Seq<bool>| #[trigger] ref_mapped(pred, s, keep) && r == select(s, keep)
}

/// `(yes, no)` is what splitting `s` by the answers of `pred` may give, in order.
pub open spec fn partitioned<A, F: Fn(&A) -> bool>(pred: F, s: Seq<A>, yes: Seq<A>, no: Seq<A>) -> bool {
    exists|keep: Seq<bool>|
        #[trigger] ref_mapped(pred, s, keep) && yes == select(s, keep) && no == select(s, negate(keep))
}

/// `a` is `b` with some of its items left out (the order kept).
pub open spec fn is_subseq<A>(a: Seq<A>, b: Seq<A>) -> bool {
    exists|keep: Seq<bool>| keep.len() == b.len() && a == #[trigger] select(b, keep)
}

/// The values of the `Some` items of `s`, in order.
pub open spec fn somes<A>(s: Seq<Option<A>>) -> Seq<A>
    decreases s.len(),
{
    if s.len() == 0 {
        Seq::empty()
    } else {
        match s.last() {
            Some(x) => somes(s.drop_last()).push(x),
            None => somes(s.drop_last()),
        }
    }
}

/// `r` is what applying `f` to each item and keeping the `Some` answers may give.
pub open spec fn filter_mapped<A, B, F: Fn(A) -> Option<B>>(f: F, s: Seq<A>, r: Seq<B>) -> bool {
    exists|outs: Seq<Option<B>>| #[trigger] mapped(f, s, outs) && r == somes(outs)
}

/// `p` is the length of the leading run of `Some` items of `s`.
pub open spec fn is_run_end<A>(s: Seq<Option<A>>, p: int) -> bool {
    &&& 0 <= p <= s.len()
    &&& forall|i: int| 0 <= i < p ==> (#[trigger] s[i]) is Some
    &&& p < s.len() ==> s[p] is None
}

/// The values of the `Some` items before the first `None` of `s`.
pub open spec fn leading_somes<A>(s: Seq<Option<A>>) -> Seq<A> {
    somes(s.take(choose|p: int| is_run_end(s, p)))
}

/// No item of `s` is `None`.
pub open spec fn all_some<A>(s: Seq<Option<A>>) -> bool {
    forall|i: int| 0 <= i < s.len() ==> (#[trigger] s[i]) is Some
}

/// The left values of `s`, in order.
pub open spec fn lefts<L, R>(s: Seq<Either<L, R>>) -> Seq<L>
    decreases s.len(),
{
    if s.len() == 0 {
        Seq::empty()
    } else {
        match s.last() {
            Either::Left(l) => lefts(s.drop_last()).push(l),
            Either::Right(_) => lefts(s.drop_last()),
        }
    }
}

/// The right values of `s`, in order.
pub open spec fn rights<L, R>(s: Seq<Either<L, R>>) -> Seq<R>
    decreases s.len(),
{
    if s.len() == 0 {
        Seq::empty()
    } else {
        match s.last() {
            Either::Left(_) => rights(s.drop_last()),
            Either::Right(r) => rights(s.drop_last()).push(r),
        }
    }
}

/// `(a, b)` is what sorting the answers of `f` on the items of `s` into left and right may give.
pub open spec fn partition_mapped<A, L, R, F: Fn(A) -> Either<L, R>>(
    f: F,
    s: Seq<A>,
    a: Seq<L>,
    b: Seq<R>,
) -> bool {
    exists|outs: Seq<Either<L, R>>| #[trigger] mapped(f, s, outs) && a == lefts(outs) && b == rights(outs)
}

// ---------------------------------------------------------------------------
// Concatenating

/// The sequences of `ss`, one after another.
pub open spec fn concat<A>(ss: Seq<Seq<A>>) -> Seq<A>
    decreases ss.len(),
{
    if ss.len() == 0 {
        Seq::empty()
    } else {
        concat(ss.drop_last()) + ss.last()
    }
}

/// The contents of the vectors of `vs`, one after another.
pub open spec fn concat_vecs<A>(vs: Seq<Vec<A>>) -> Seq<A> {
    concat(vs.map_values(|v: Vec<A>| v@))
}

/// `r` is what applying `f` to each item and concatenating the answers may give.
pub open spec fn flat_mapped<A, B, F: Fn(A) -> Vec<B>>(f: F, s: Seq<A>, r: Seq<B>) -> bool {
    exists|outs: Seq<Vec<B>>| #[trigger] mapped(f, s, outs) && r == concat_vecs(outs)
}

// ---------------------------------------------------------------------------
// Closures that take a state by `&mut`

/// `f` may be called with any state on each item of `s`.
pub open spec fn state_callable_on<S, A, B, F: Fn(&mut S, A) -> B>(f: F, s: Seq<A>) -> bool {
    forall|m: &mut S, i: int| 0 <= i < s.len() ==> #[trigger] call_requires(f, (m, s[i]))
}

/// `y` is what `f` may answer on the item `x` with some state.
pub open spec fn answers_with_state<S, A, B, F: Fn(&mut S, A) -> B>(f: F, x: A, y: B) -> bool {
    exists|m: &mut S| call_ensures(f, (m, x), y)
}

/// What `f` answers on an item does not depend on the state, and is one value only.
pub open spec fn ignores_state<S, A, B, F: Fn(&mut S, A) -> B>(f: F) -> bool {
    forall|m1: &mut S, m2: &mut S, x: A, y1: B, y2: B|
        #![trigger call_ensures(f, (m1, x), y1), call_ensures(f, (m2, x), y2)]
        call_ensures(f, (m1, x), y1) && call_ensures(f, (m2, x), y2) ==> y1 == y2
}

/// The values that the closure `init` may give.
pub open spec fn made_by<S, I: Fn() -> S>(init: I) -> spec_fn(S) -> bool {
    |st: S| call_ensures(init, (), st)
}

/// `c` is a chain of clones from `init`: it starts at `init`, and each value is what
/// `clone` may give on the one before.
pub open spec fn is_clone_chain<S: Clone>(init: S, c: Seq<S>) -> bool {
    &&& c.len() > 0
    &&& c[0] == init
    &&& forall|k: int| 0 <= k < c.len() - 1 ==> cloned(c[k], #[trigger] c[k + 1])
}

/// `x` is `init` or what a chain of `clone` calls starting from `init` may give.
pub open spec fn reached_by_clones<S: Clone>(init: S, x: S) -> bool {
    exists|c: Seq<S>| #[trigger] is_clone_chain(init, c) && c.last() == x
}

/// The values reached from `init` by a chain of clones (`init` itself among them).
pub open spec fn clone_of<S: Clone>(init: S) -> spec_fn(S) -> bool {
    |st: S| reached_by_clones(init, st)
}

/// `f` may be called on each item of `s` by `&mut`.
pub open spec fn mut_callable_on<A, F: Fn(&mut A)>(f: F, s: Seq<A>) -> bool {
    forall|m: &mut A, i: int|
        #![trigger call_requires(f, (m,)), s[i]]
        0 <= i < s.len() && *m == s[i] ==> call_requires(f, (m,))
}

// ---------------------------------------------------------------------------
// Folding and reducing

/// `accs` is a trace of folding `c` from `init` with `op`: `accs[k + 1]` is what
/// `op` may give on `accs[k]` and `c[k]`.
pub open spec fn fold_trace<T, A, F: Fn(T, A) -> T>(op: F, init: T, c: Seq<A>, accs: Seq<T>) -> bool {
    &&& accs.len() == c.len() + 1
    &&& accs[0] == init
    &&& forall|k: int| 0 <= k < c.len() ==> call_ensures(op, (accs[k], c[k]), #[trigger] accs[k + 1])
}

/// `v` is what folding `c` from `init` with `op` may give.
pub open spec fn folds<T, A, F: Fn(T, A) -> T>(op: F, init: T, c: Seq<A>, v: T) -> bool {
    exists|accs: Seq<T>| #[trigger] fold_trace(op, init, c, accs) && accs.last() == v
}

/// `v` is what folding `c` with `op`, from a start that `start_ok` allows, may give.
pub open spec fn folds_from<T, A, F: Fn(T, A) -> T>(start_ok: spec_fn(T) -> bool, op: F, c: Seq<A>, v: T) -> bool {
    exists|init: T| #[trigger] start_ok(init) && folds(op, init, c, v)
}

/// `r` holds, in order, the folds of consecutive chunks that together make up `s`
/// (each chunk folded with `op` from a start that `start_ok` allows).
pub open spec fn chunk_folds<T, A, F: Fn(T, A) -> T>(start_ok: spec_fn(T) -> bool, op: F, s: Seq<A>, r: Seq<T>) -> bool {
    exists|chunks: Seq<Seq<A>>| #[trigger] chunked_folds(start_ok, op, s, r, chunks)
}

/// The witness of `chunk_folds`.
pub open spec fn chunked_folds<T, A, F: Fn(T, A) -> T>(
    start_ok: spec_fn(T) -> bool,
    op: F,
    s: Seq<A>,
    r: Seq<T>,
    chunks: Seq<Seq<A>>,
) -> bool {
    &&& concat(chunks) == s
    &&& chunks.len() == r.len()
    &&& forall|j: int| 0 <= j < r.len() ==> folds_from(start_ok, op, chunks[j], #[trigger] r[j])
}

/// One step of combining: `next` is `cur` with the neighbours at `p` and `p + 1` replaced
/// by what `op` may give on them.
pub open spec fn merge_step<T, F: Fn(T, T) -> T>(op: F, cur: Seq<T>, next: Seq<T>, p: int) -> bool {
    &&& 0 <= p < cur.len() - 1
    &&& next.len() == cur.len() - 1
    &&& next.take(p) == cur.take(p)
    &&& next.skip(p + 1) == cur.skip(p + 2)
    &&& call_ensures(op, (cur[p], cur[p + 1]), next[p])
}

/// The witness of `bracketed`: `states` goes from `vals` to the single value `r`, each
/// step combining two neighbours (at `pos[t]`) with `op`.
pub open spec fn combine_trace<T, F: Fn(T, T) -> T>(op: F, vals: Seq<T>, r: T, states: Seq<Seq<T>>, pos: Seq<int>) -> bool {
    &&& vals.len() > 0
    &&& states.len() == vals.len()
    &&& pos.len() == vals.len() - 1
    &&& states[0] == vals
    &&& forall|t: int| 0 <= t < vals.len() - 1 ==> merge_step(op, #[trigger] states[t], states[t + 1], pos[t])
    &&& states.last() == seq![r]
}

/// `r` is what combining the values of `vals`, in order, with `op` in some bracketing
/// may give: a combination of neighbours at a time, down to one value.
pub open spec fn bracketed<T, F: Fn(T, T) -> T>(op: F, vals: Seq<T>, r: T) -> bool {
    exists|states: Seq<Seq<T>>, pos: Seq<int>| #[trigger] combine_trace(op, vals, r, states, pos)
}

/// `r` is what a parallel reduction of `s` may give: `s` cut into consecutive chunks,
/// each folded with `op` from a start that `start_ok` allows, the folds combined with `op`
/// in some bracketing.
pub open spec fn reduces<T, F: Fn(T, T) -> T>(start_ok: spec_fn(T) -> bool, op: F, s: Seq<T>, r: T) -> bool {
    exists|vals: Seq<T>| #[trigger] chunk_folds(start_ok, op, s, vals) && bracketed(op, vals, r)
}

/// `op` may be called on every value that folding a piece `s[i..j]` (from the first item
/// only, unless `anywhere`) from a start that `start_ok` allows may give, with `s[j]`:
/// the calls that folding pieces of `s` makes, and no others.
pub open spec fn fold_steps_callable<T, A, F: Fn(T, A) -> T>(
    start_ok: spec_fn(T) -> bool,
    op: F,
    s: Seq<A>,
    anywhere: bool,
) -> bool {
    forall|i: int, j: int, v: T|
        0 <= i <= j < s.len() && (anywhere || i == 0) && #[trigger] folds_from(start_ok, op, s.subrange(i, j), v)
            ==> call_requires(op, (v, s[j]))
}

/// `op` may be called on what reducing two neighbouring pieces `s[i..j]` and `s[j..k]`
/// may give: the calls that combine the results of a parallel reduction of `s`.
pub open spec fn combine_callable<T, F: Fn(T, T) -> T>(start_ok: spec_fn(T) -> bool, op: F, s: Seq<T>) -> bool {
    forall|i: int, j: int, k: int, a: T, b: T|
        #![trigger reduces(start_ok, op, s.subrange(i, j), a), reduces(start_ok, op, s.subrange(j, k), b)]
        0 <= i <= j <= k <= s.len() && reduces(start_ok, op, s.subrange(i, j), a)
            && reduces(start_ok, op, s.subrange(j, k), b) ==> call_requires(op, (a, b))
}

/// `op` may be called on every value that folding a nonempty piece `s[i..j]` (from the
/// first item only, unless `anywhere`) from its first item may give, with `s[j]`.
pub open spec fn fold1_steps_callable<T, F: Fn(T, T) -> T>(op: F, s: Seq<T>, anywhere: bool) -> bool {
    forall|i: int, j: int, v: T|
        0 <= i < j < s.len() && (anywhere || i == 0) && #[trigger] folds(op, s[i], s.subrange(i, j).drop_first(), v)
            ==> call_requires(op, (v, s[j]))
}

/// `op` may be called on what reducing, without an identity, two neighbouring nonempty
/// pieces `s[i..j]` and `s[j..k]` may give.
pub open spec fn combine1_callable<T, F: Fn(T, T) -> T>(op: F, s: Seq<T>) -> bool {
    forall|i: int, j: int, k: int, a: T, b: T|
        #![trigger reduces1(op, s.subrange(i, j), a), reduces1(op, s.subrange(j, k), b)]
        0 <= i < j < k <= s.len() && reduces1(op, s.subrange(i, j), a) && reduces1(op, s.subrange(j, k), b)
            ==> call_requires(op, (a, b))
}

/// `v` is what folding a nonempty `c` with `op` from its first item may give.
pub open spec fn folds1<T, F: Fn(T, T) -> T>(op: F, c: Seq<T>, v: T) -> bool {
    c.len() > 0 && folds(op, c[0], c.drop_first(), v)
}

/// `r` is what a parallel reduction of a nonempty `s` without an identity may give: `s`
/// cut into nonempty consecutive chunks, each folded from its first item, the folds
/// combined with `op` in some bracketing.
pub open spec fn reduces1<T, F: Fn(T, T) -> T>(op: F, s: Seq<T>, r: T) -> bool {
    exists|chunks: Seq<Seq<T>>, vals: Seq<T>|
        #[trigger] reduced1_by(op, s, chunks, vals) && bracketed(op, vals, r)
}

/// The witness of `reduces1`.
pub open spec fn reduced1_by<T, F: Fn(T, T) -> T>(op: F, s: Seq<T>, chunks: Seq<Seq<T>>, vals: Seq<T>) -> bool {
    &&& concat(chunks) == s
    &&& chunks.len() == vals.len()
    &&& forall|j: int| 0 <= j < vals.len() ==> folds1(op, chunks[j], #[trigger] vals[j])
}

// ---------------------------------------------------------------------------
// Closures that behave as functions

/// `f` answers each argument with one value only.
pub open spec fn is_deterministic<A, B, F: Fn(A) -> B>(f: F) -> bool {
    forall|a: A, r1: B, r2: B| call_ensures(f, (a,), r1) && call_ensures(f, (a,), r2) ==> r1 == r2
}

/// `f` answers each referenced argument with one value only.
pub open spec fn is_ref_deterministic<A, B, F: Fn(&A) -> B>(f: F) -> bool {
    forall|a: A, r1: B, r2: B| call_ensures(f, (&a,), r1) && call_ensures(f, (&a,), r2) ==> r1 == r2
}

/// What `op` answers on `a` and `b`, when it answers with one value.
pub open spec fn apply2<T, F: Fn(T, T) -> T>(op: F, a: T, b: T) -> T {
    choose|r: T| call_ensures(op, (a, b), r)
}

/// `op` answers every pair of arguments, and with one value only.
pub open spec fn is_function2<T, F: Fn(T, T) -> T>(op: F) -> bool {
    &&& forall|a: T, b: T| #![trigger apply2(op, a, b)] call_ensures(op, (a, b), apply2(op, a, b))
    &&& forall|a: T, b: T, r: T| #[trigger] call_ensures(op, (a, b), r) ==> r == apply2(op, a, b)
}

/// `op` is associative.
pub open spec fn is_associative<T, F: Fn(T, T) -> T>(op: F) -> bool {
    forall|a: T, b: T, c: T|
        #![trigger apply2(op, apply2(op, a, b), c)]
        #![trigger apply2(op, a, apply2(op, b, c))]
        apply2(op, apply2(op, a, b), c) == apply2(op, a, apply2(op, b, c))
}

/// `e` is an identity of `op`, on both sides.
pub open spec fn is_identity<T, F: Fn(T, T) -> T>(op: F, e: T) -> bool {
    forall|a: T| #![trigger apply2(op, e, a)] #![trigger apply2(op, a, e)] apply2(op, e, a) == a && apply2(op, a, e) == a
}

/// The closure `identity` can only give `e`.
pub open spec fn gives_only<T, ID: Fn() -> T>(identity: ID, e: T) -> bool {
    forall|x: T| #[trigger] call_ensures(identity, (), x) ==> x == e
}

/// Folding `s` in order with the function `op`, from `acc`.
pub open spec fn fold_fn<T, F: Fn(T, T) -> T>(op: F, acc: T, s: Seq<T>) -> T
    decreases s.len(),
{
    if s.len() == 0 {
        acc
    } else {
        apply2(op, fold_fn(op, acc, s.drop_last()), s.last())
    }
}

// ---------------------------------------------------------------------------
// Arithmetic on `u64` items

/// The sum of the items of `s`.
pub open spec fn sum_of(s: Seq<u64>) -> int
    decreases s.len(),
{
    if s.len() == 0 {
        0
    } else {
        sum_of(s.drop_last()) + s.last()
    }
}

/// The product of the items of `s`.
pub open spec fn product_of(s: Seq<u64>) -> int
    decreases s.len(),
{
    if s.len() == 0 {
        1
    } else {
        product_of(s.drop_last()) * s.last()
    }
}

/// The product of the items of `s` that are not zero: no partial product of `s`,
/// taken in any order and bracketing, exceeds it.
pub open spec fn nonzero_product_of(s: Seq<u64>) -> int
    decreases s.len(),
{
    if s.len() == 0 {
        1
    } else if s.last() == 0 {
        nonzero_product_of(s.drop_last())
    } else {
        nonzero_product_of(s.drop_last()) * s.last()
    }
}

/// Every running product of `s`, item by item from the first, fits in a `u64`.
pub open spec fn running_products_fit(s: Seq<u64>) -> bool {
    forall|k: int| 0 <= k <= s.len() ==> #[trigger] product_of(s.take(k)) <= u64::MAX
}

/// The least item of a nonempty `s`.
pub open spec fn min_of(s: Seq<u64>) -> u64
    decreases s.len(),
{
    if s.len() <= 1 {
        s[0]
    } else {
        let m = min_of(s.drop_last());
        if s.last() < m { s.last() } else { m }
    }
}

/// The greatest item of a nonempty `s`.
pub open spec fn max_of(s: Seq<u64>) -> u64
    decreases s.len(),
{
    if s.len() <= 1 {
        s[0]
    } else {
        let m = max_of(s.drop_last());
        if s.last() > m { s.last() } else { m }
    }
}

/// `j` is the first place of a least key of `keys`.
pub open spec fn is_first_min(keys: Seq<u64>, j: int) -> bool {
    &&& 0 <= j < keys.len()
    &&& forall|i: int| 0 <= i < keys.len() ==> keys[j] <= #[trigger] keys[i]
    &&& forall|i: int| 0 <= i < j ==> keys[j] < #[trigger] keys[i]
}

/// `j` is the last place of a greatest key of `keys`.
pub open spec fn is_last_max(keys: Seq<u64>, j: int) -> bool {
    &&& 0 <= j < keys.len()
    &&& forall|i: int| 0 <= i < keys.len() ==> #[trigger] keys[i] <= keys[j]
    &&& forall|i: int| j < i < keys.len() ==> #[trigger] keys[i] < keys[j]
}

// ---------------------------------------------------------------------------
// Searching

/// `r` is what searching `s` for some item on which `pred` answers `true` may give: such
/// an item, or `None` when `pred` answers `false` on every item.
pub open spec fn finds_some<A, P: Fn(&A) -> bool>(pred: P, s: Seq<A>, r: Option<A>) -> bool {
    &&& r matches Some(x) ==> exists|j: int|
        0 <= j < s.len() && x == #[trigger] s[j] && call_ensures(pred, (&s[j],), true)
    &&& r is None ==> forall|i: int| 0 <= i < s.len() ==> call_ensures(pred, (&#[trigger] s[i],), false)
}

/// `r` is what searching `s` for the first item on which `pred` answers `true` may give:
/// such an item, `pred` answering `false` on every item before it, or `None` when it
/// answers `false` on every item.
pub open spec fn finds_first<A, P: Fn(&A) -> bool>(pred: P, s: Seq<A>, r: Option<A>) -> bool {
    &&& r matches Some(x) ==> exists|j: int|
        0 <= j < s.len() && x == #[trigger] s[j] && call_ensures(pred, (&s[j],), true)
            && forall|i: int| 0 <= i < j ==> call_ensures(pred, (&#[trigger] s[i],), false)
    &&& r is None ==> forall|i: int| 0 <= i < s.len() ==> call_ensures(pred, (&#[trigger] s[i],), false)
}

/// `r` is what searching `s` for the last item on which `pred` answers `true` may give:
/// such an item, `pred` answering `false` on every item after it, or `None` when it
/// answers `false` on every item.
pub open spec fn finds_last<A, P: Fn(&A) -> bool>(pred: P, s: Seq<A>, r: Option<A>) -> bool {
    &&& r matches Some(x) ==> exists|j: int|
        0 <= j < s.len() && x == #[trigger] s[j] && call_ensures(pred, (&s[j],), true)
            && forall|i: int| j < i < s.len() ==> call_ensures(pred, (&#[trigger] s[i],), false)
    &&& r is None ==> forall|i: int| 0 <= i < s.len() ==> call_ensures(pred, (&#[trigger] s[i],), false)
}

/// `r` is what searching `s` for the place of some item on which `pred` answers `true`
/// may give: such a place, or `None` when `pred` answers `false` on every item.
pub open spec fn places_some<A, P: Fn(A) -> bool>(pred: P, s: Seq<A>, r: Option<usize>) -> bool {
    &&& r matches Some(j) ==> j < s.len() && call_ensures(pred, (s[j as int],), true)
    &&& r is None ==> forall|i: int| 0 <= i < s.len() ==> call_ensures(pred, (#[trigger] s[i],), false)
}

/// `r` is what searching `s` for the first place of an item on which `pred` answers
/// `true` may give: such a place, `pred` answering `false` before it, or `None` when it
/// answers `false` on every item.
pub open spec fn places_first<A, P: Fn(A) -> bool>(pred: P, s: Seq<A>, r: Option<usize>) -> bool {
    &&& r matches Some(j) ==> j < s.len() && call_ensures(pred, (s[j as int],), true)
        && forall|i: int| 0 <= i < j ==> call_ensures(pred, (#[trigger] s[i],), false)
    &&& r is None ==> forall|i: int| 0 <= i < s.len() ==> call_ensures(pred, (#[trigger] s[i],), false)
}

/// `r` is what searching `s` for the last place of an item on which `pred` answers
/// `true` may give: such a place, `pred` answering `false` after it, or `None` when it
/// answers `false` on every item.
pub open spec fn places_last<A, P: Fn(A) -> bool>(pred: P, s: Seq<A>, r: Option<usize>) -> bool {
    &&& r matches Some(j) ==> j < s.len() && call_ensures(pred, (s[j as int],), true)
        && forall|i: int| j < i < s.len() ==> call_ensures(pred, (#[trigger] s[i],), false)
    &&& r is None ==> forall|i: int| 0 <= i < s.len() ==> call_ensures(pred, (#[trigger] s[i],), false)
}

/// `r` is what asking whether `pred` answers `true` on some item of `s` may give.
pub open spec fn answers_any<A, P: Fn(A) -> bool>(pred: P, s: Seq<A>, r: bool) -> bool {
    &&& r ==> exists|j: int| 0 <= j < s.len() && call_ensures(pred, (#[trigger] s[j],), true)
    &&& !r ==> forall|i: int| 0 <= i < s.len() ==> call_ensures(pred, (#[trigger] s[i],), false)
}

/// `r` is what asking whether `pred` answers `true` on every item of `s` may give.
pub open spec fn answers_all<A, P: Fn(A) -> bool>(pred: P, s: Seq<A>, r: bool) -> bool {
    &&& r ==> forall|i: int| 0 <= i < s.len() ==> call_ensures(pred, (#[trigger] s[i],), true)
    &&& !r ==> exists|j: int| 0 <= j < s.len() && call_ensures(pred, (#[trigger] s[j],), false)
}

/// `r` is what picking the item of `s` with the least key under `f` may give: `None`
/// exactly when `s` is empty, else the first item with the least key.
pub open spec fn least_by_key<A, F: Fn(&A) -> u64>(f: F, s: Seq<A>, r: Option<A>) -> bool {
    &&& r is None <==> s.len() == 0
    &&& r matches Some(x) ==> exists|keys: Seq<u64>, j: int|
        ref_mapped(f, s, keys) && #[trigger] is_first_min(keys, j) && x == s[j]
}

/// `r` is what picking the item of `s` with the greatest key under `f` may give: `None`
/// exactly when `s` is empty, else the last item with the greatest key.
pub open spec fn greatest_by_key<A, F: Fn(&A) -> u64>(f: F, s: Seq<A>, r: Option<A>) -> bool {
    &&& r is None <==> s.len() == 0
    &&& r matches Some(x) ==> exists|keys: Seq<u64>, j: int|
        ref_mapped(f, s, keys) && #[trigger] is_last_max(keys, j) && x == s[j]
}

/// What the comparator `f` answers on `a` and `b`, when it answers with one ordering.
pub open spec fn order_of<T, F: Fn(&T, &T) -> Ordering>(f: F, a: T, b: T) -> Ordering {
    choose|o: Ordering| call_ensures(f, (&a, &b), o)
}

/// The comparator `f` is a total order: it answers every pair with one ordering only,
/// swapping the arguments turns `Less` into `Greater` and back, and "not greater"
/// carries through from `a` to `b` to `c`.
pub open spec fn is_total_order<T, F: Fn(&T, &T) -> Ordering>(f: F) -> bool {
    &&& forall|a: T, b: T| #![trigger order_of(f, a, b)] call_ensures(f, (&a, &b), order_of(f, a, b))
    &&& forall|a: T, b: T, o: Ordering| #[trigger] call_ensures(f, (&a, &b), o) ==> o == order_of(f, a, b)
    &&& forall|a: T, b: T|
        #![trigger order_of(f, a, b)]
        (order_of(f, a, b) == Ordering::Less) == (order_of(f, b, a) == Ordering::Greater)
    &&& forall|a: T, b: T, c: T|
        #![trigger order_of(f, a, b), order_of(f, b, c)]
        order_of(f, a, b) != Ordering::Greater && order_of(f, b, c) != Ordering::Greater
            ==> order_of(f, a, c) != Ordering::Greater
}

/// `j` is the first place of a least item of `s` under `f`: no item is less than it,
/// and every item before it is greater.
pub open spec fn is_first_least<T, F: Fn(&T, &T) -> Ordering>(f: F, s: Seq<T>, j: int) -> bool {
    &&& 0 <= j < s.len()
    &&& forall|k: int| 0 <= k < s.len() ==> order_of(f, s[j], #[trigger] s[k]) != Ordering::Greater
    &&& forall|k: int| 0 <= k < j ==> order_of(f, #[trigger] s[k], s[j]) == Ordering::Greater
}

/// `j` is the last place of a greatest item of `s` under `f`: no item is greater than
/// it, and every item after it is less.
pub open spec fn is_last_greatest<T, F: Fn(&T, &T) -> Ordering>(f: F, s: Seq<T>, j: int) -> bool {
    &&& 0 <= j < s.len()
    &&& forall|k: int| 0 <= k < s.len() ==> order_of(f, s[j], #[trigger] s[k]) != Ordering::Less
    &&& forall|k: int| j < k < s.len() ==> order_of(f, s[j], #[trigger] s[k]) == Ordering::Greater
}

/// The comparator `f` may be called on every pair of items of `s`.
pub open spec fn pair_callable_on<T, F: Fn(&T, &T) -> Ordering>(f: F, s: Seq<T>) -> bool {
    forall|i: int, j: int| #![trigger s[i], s[j]] 0 <= i < s.len() && 0 <= j < s.len() ==> call_requires(f, (&s[i], &s[j]))
}

/// One step of picking in order: of the best so far `b` and the next item `x`, `nb` is
/// `x` when `f(b, x)` answered `Greater` (picking the least) or anything but `Greater`
/// (picking the greatest), else `b`.
pub open spec fn best_step<T, F: Fn(&T, &T) -> Ordering>(f: F, b: T, x: T, nb: T, least: bool) -> bool {
    exists|o: Ordering| #[trigger] call_ensures(f, (&b, &x), o) && nb == (if (o == Ordering::Greater) == least { x } else { b })
}

/// `bs` is a trace of picking in order over `s`: it starts at the first item, and each
/// value is one `best_step` from the one before with the next item.
pub open spec fn is_best_trace<T, F: Fn(&T, &T) -> Ordering>(f: F, s: Seq<T>, least: bool, bs: Seq<T>) -> bool {
    &&& bs.len() == s.len()
    &&& s.len() > 0 ==> bs[0] == s[0]
    &&& forall|k: int| 0 < k < s.len() ==> best_step(f, bs[k - 1], s[k], #[trigger] bs[k], least)
}

/// `r`, when it is an item, is what picking in order over `s` with `f` may end with.
pub open spec fn picked_in_order<T, F: Fn(&T, &T) -> Ordering>(f: F, s: Seq<T>, least: bool, r: Option<T>) -> bool {
    r matches Some(x) ==> exists|bs: Seq<T>| #[trigger] is_best_trace(f, s, least, bs) && x == bs.last()
}

/// `r`, when it is an item, is the first least item of `s` under `f`.
pub open spec fn picks_first_least<T, F: Fn(&T, &T) -> Ordering>(f: F, s: Seq<T>, r: Option<T>) -> bool {
    r matches Some(x) ==> exists|j: int| #[trigger] is_first_least(f, s, j) && x == s[j]
}

/// `r`, when it is an item, is the last greatest item of `s` under `f`.
pub open spec fn picks_last_greatest<T, F: Fn(&T, &T) -> Ordering>(f: F, s: Seq<T>, r: Option<T>) -> bool {
    r matches Some(x) ==> exists|j: int| #[trigger] is_last_greatest(f, s, j) && x == s[j]
}

// ---------------------------------------------------------------------------
// Rearranging

/// The items of `s` and of `t`, paired up place by place, as far as the shorter goes.
pub open spec fn zip_of<A, B>(s: Seq<A>, t: Seq<B>) -> Seq<(A, B)> {
    let n = if s.len() <= t.len() { s.len() } else { t.len() };
    Seq::new(n, |i: int| (s[i], t[i]))
}

/// The items of `s`, each paired with its place.
pub open spec fn enumerate_of<A>(s: Seq<A>) -> Seq<(usize, A)> {
    Seq::new(s.len(), |i: int| (i as usize, s[i]))
}

/// The items of `s` in reverse order.
pub open spec fn reverse_of<A>(s: Seq<A>) -> Seq<A> {
    Seq::new(s.len(), |i: int| s[s.len() - 1 - i])
}

/// `s` without its first `n` items (empty when `s` is shorter).
pub open spec fn skip_of<A>(s: Seq<A>, n: int) -> Seq<A> {
    if n <= s.len() { s.skip(n) } else { Seq::empty() }
}

/// The first `n` items of `s` (all of `s` when it is shorter).
pub open spec fn take_of<A>(s: Seq<A>, n: int) -> Seq<A> {
    if n <= s.len() { s.take(n) } else { s }
}

/// The items of `s` and `t` alternately, starting with `s`; once one runs out,
/// the rest of the other.
pub open spec fn interleave_of<A>(s: Seq<A>, t: Seq<A>) -> Seq<A>
    decreases s.len() + t.len(),
{
    if s.len() == 0 {
        t
    } else {
        seq![s[0]] + interleave_of(t, s.drop_first())
    }
}

/// The items of `s` and `t` alternately, starting with `s`, until the one whose
/// turn it is has run out.
pub open spec fn interleave_shortest_of<A>(s: Seq<A>, t: Seq<A>) -> Seq<A>
    decreases s.len() + t.len(),
{
    if s.len() == 0 {
        Seq::empty()
    } else {
        seq![s[0]] + interleave_shortest_of(t, s.drop_first())
    }
}

/// `r` is `s` with a value reached from `sep` by clones between each two neighbouring
/// items.
pub open spec fn interspersed<A: Clone>(s: Seq<A>, sep: A, r: Seq<A>) -> bool {
    &&& r.len() == (if s.len() == 0 { 0 } else { 2 * s.len() - 1 })
    &&& forall|i: int| 0 <= i < s.len() ==> #[trigger] r[2 * i] == s[i]
    &&& forall|i: int| 0 <= i < s.len() - 1 ==> reached_by_clones(sep, #[trigger] r[2 * i + 1])
}

/// The first components of the pairs of `s`.
pub open spec fn firsts<A, B>(s: Seq<(A, B)>) -> Seq<A> {
    s.map_values(|p: (A, B)| p.0)
}

/// The second components of the pairs of `s`.
pub open spec fn seconds<A, B>(s: Seq<(A, B)>) -> Seq<B> {
    s.map_values(|p: (A, B)| p.1)
}

// ---------------------------------------------------------------------------
// Comparing `u64` items with another sequence

/// Item `i` of `s`.
pub open spec fn at(s: Seq<u64>, i: usize) -> u64 {
    s[i as int]
}

/// `a` and `b` agree on their first `n` items.
pub open spec fn agree_upto(a: Seq<u64>, b: Seq<u64>, n: usize) -> bool {
    forall|k: int| 0 <= k < n ==> a[k] == b[k]
}

/// `i` is the first place, within both `a` and `b`, where they differ.
pub open spec fn first_difference(a: Seq<u64>, b: Seq<u64>, i: int) -> bool {
    &&& 0 <= i < a.len()
    &&& i < b.len()
    &&& a[i] != b[i]
    &&& forall|k: int| 0 <= k < i ==> a[k] == b[k]
}

/// The lexicographic order of `a` and `b`: decided at their first difference, else a
/// prefix comes first.
pub open spec fn lex_order(a: Seq<u64>, b: Seq<u64>) -> Ordering {
    if exists|i: int| #[trigger] first_difference(a, b, i) {
        let i = choose|i: int| #[trigger] first_difference(a, b, i);
        if a[i] < b[i] {
            Ordering::Less
        } else {
            Ordering::Greater
        }
    } else if a.len() < b.len() {
        Ordering::Less
    } else if a.len() == b.len() {
        Ordering::Equal
    } else {
        Ordering::Greater
    }
}

} // verus!
