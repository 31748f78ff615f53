//! Laws of `CondIterator`: what holds across its operations, and above all that the
//! result of an operation does not depend on whether the items are processed in
//! parallel or serially ("a common API either way").
use vstd::prelude::*;
use std::cmp::Ordering;
use crate::lemmas::{lemma_reverse_reverse, lemma_single_concat};
use crate::model::{
    answers_with_state, ignores_state,
    is_total_order, picks_first_least, picks_last_greatest, is_first_least, is_last_greatest, order_of,
    finds_first, finds_last, places_first, places_last, answers_any, answers_all, least_by_key,
    greatest_by_key, is_first_min, is_last_max,
    apply2, bracketed, chunk_folds, combine_trace, merge_step, chunked_folds, concat, concat_vecs, filter_mapped, filtered,
    flat_mapped, fold_fn, fold_trace, folds, folds1, folds_from, gives_only, is_associative,
    is_deterministic, is_function2, is_identity, is_ref_deterministic, made_by, mapped, max_of,
    min_of, partitioned, reduced1_by, reduces, reduces1, ref_mapped, reverse_of, select, negate,
    skip_of, somes, sum_of, take_of, interleave_of, enumerate_of, firsts, seconds,
};

verus! {

// ---------------------------------------------------------------------------
// Folding with a function

/// Each step of a trace of folding with a function is the fold of the prefix.
proof fn lemma_trace_prefix<T, F: Fn(T, T) -> T>(op: F, init: T, c: Seq<T>, accs: Seq<T>, k: int)
    requires
        is_function2(op),
        fold_trace(op, init, c, accs),
        0 <= k <= c.len(),
    ensures
        accs[k] == fold_fn(op, init, c.take(k)),
    decreases k,
{
    if k == 0 {
        assert(c.take(0) =~= Seq::<T>::empty());
    } else {
        let j = k - 1;
        lemma_trace_prefix(op, init, c, accs, j);
        assert(c.take(k).drop_last() =~= c.take(j));
        assert(call_ensures(op, (accs[j], c[j]), accs[j + 1]));
    }
}

/// Folding with a function gives its fold.
proof fn lemma_folds_is_fold<T, F: Fn(T, T) -> T>(op: F, init: T, c: Seq<T>, v: T)
    requires
        is_function2(op),
        folds(op, init, c, v),
    ensures
        v == fold_fn(op, init, c),
{
    let accs = choose|accs: Seq<T>| #[trigger] fold_trace(op, init, c, accs) && accs.last() == v;
    lemma_trace_prefix(op, init, c, accs, c.len() as int);
    assert(c.take(c.len() as int) =~= c);
}

/// Folding a concatenation is folding the second part from the fold of the first.
proof fn lemma_fold_fn_append<T, F: Fn(T, T) -> T>(op: F, a: T, p: Seq<T>, q: Seq<T>)
    ensures
        fold_fn(op, a, p + q) == fold_fn(op, fold_fn(op, a, p), q),
    decreases q.len(),
{
    if q.len() == 0 {
        assert(p + q =~= p);
    } else {
        lemma_fold_fn_append(op, a, p, q.drop_last());
        assert((p + q).drop_last() =~= p + q.drop_last());
        assert((p + q).last() == q.last());
    }
}

/// With an associative function, folding a nonempty `q` from `a` is `a` combined with
/// the fold of `q` from its first item.
proof fn lemma_fold_fn_first<T, F: Fn(T, T) -> T>(op: F, a: T, q: Seq<T>)
    requires
        is_function2(op),
        is_associative(op),
        q.len() > 0,
    ensures
        fold_fn(op, a, q) == apply2(op, a, fold_fn(op, q[0], q.drop_first())),
    decreases q.len(),
{
    if q.len() == 1 {
        assert(q.drop_last() =~= Seq::<T>::empty());
        assert(q.drop_first() =~= Seq::<T>::empty());
        assert(fold_fn(op, a, q.drop_last()) == a);
        assert(fold_fn(op, q[0], q.drop_first()) == q[0]);
        assert(q.last() == q[0]);
    } else {
        let qd = q.drop_last();
        lemma_fold_fn_first(op, a, qd);
        assert(q.drop_first().drop_last() =~= qd.drop_first());
        assert(q.drop_first().last() == q.last());
        assert(qd[0] == q[0]);
        let f1 = fold_fn(op, qd[0], qd.drop_first());
        assert(fold_fn(op, q[0], q.drop_first()) == apply2(op, f1, q.last()));
        assert(apply2(op, apply2(op, a, f1), q.last()) == apply2(op, a, apply2(op, f1, q.last())));
    }
}

/// The fold of a concatenation, with an associative function and its identity, is the
/// combination of the folds of the parts.
proof fn lemma_fold_fn_split<T, F: Fn(T, T) -> T>(op: F, e: T, x: Seq<T>, y: Seq<T>)
    requires
        is_function2(op),
        is_associative(op),
        is_identity(op, e),
    ensures
        fold_fn(op, e, x + y) == apply2(op, fold_fn(op, e, x), fold_fn(op, e, y)),
{
    lemma_fold_fn_append(op, e, x, y);
    if y.len() == 0 {
        assert(fold_fn(op, e, y) == e);
        assert(apply2(op, fold_fn(op, e, x), e) == fold_fn(op, e, x));
    } else {
        lemma_fold_fn_first(op, fold_fn(op, e, x), y);
        lemma_fold_fn_first(op, e, y);
        assert(apply2(op, e, fold_fn(op, y[0], y.drop_first())) == fold_fn(op, y[0], y.drop_first()));
    }
}

/// The fold of a nonempty sequence from its first item.
pub open spec fn fold1_fn<T, F: Fn(T, T) -> T>(op: F, c: Seq<T>) -> T {
    fold_fn(op, c[0], c.drop_first())
}

/// The fold from the first item of a concatenation of nonempty parts, with an
/// associative function, is the combination of those of the parts.
proof fn lemma_fold1_fn_split<T, F: Fn(T, T) -> T>(op: F, x: Seq<T>, y: Seq<T>)
    requires
        is_function2(op),
        is_associative(op),
        x.len() > 0,
        y.len() > 0,
    ensures
        fold1_fn(op, x + y) == apply2(op, fold1_fn(op, x), fold1_fn(op, y)),
{
    assert((x + y).drop_first() =~= x.drop_first() + y);
    assert((x + y)[0] == x[0]);
    lemma_fold_fn_append(op, x[0], x.drop_first(), y);
    lemma_fold_fn_first(op, fold1_fn(op, x), y);
}

/// Concatenating the first `k` chunks and the others.
proof fn lemma_concat_split<A>(chunks: Seq<Seq<A>>, k: int)
    requires
        0 <= k <= chunks.len(),
    ensures
        concat(chunks) == concat(chunks.take(k)) + concat(chunks.skip(k)),
    decreases chunks.len(),
{
    if k == chunks.len() {
        assert(chunks.take(k) =~= chunks);
        assert(chunks.skip(k) =~= Seq::<Seq<A>>::empty());
        assert(concat(chunks) + concat(chunks.skip(k)) =~= concat(chunks));
    } else {
        let cd = chunks.drop_last();
        lemma_concat_split(cd, k);
        assert(cd.take(k) =~= chunks.take(k));
        assert(chunks.skip(k).drop_last() =~= cd.skip(k));
        assert(chunks.skip(k).last() == chunks.last());
        assert(concat(chunks) =~= concat(chunks.take(k)) + concat(chunks.skip(k)));
    }
}

/// Concatenating two runs of chunks.
pub(crate) proof fn lemma_concat_append<A>(x: Seq<Seq<A>>, y: Seq<Seq<A>>)
    ensures
        concat(x + y) == concat(x) + concat(y),
    decreases y.len(),
{
    if y.len() == 0 {
        assert(x + y =~= x);
        assert(concat(x) + concat(y) =~= concat(x));
    } else {
        lemma_concat_append(x, y.drop_last());
        assert((x + y).drop_last() =~= x + y.drop_last());
        assert(concat(x + y) =~= concat(x) + concat(y));
    }
}

/// The groups of chunks behind step `t` of a combination: each value of `states[t]` is
/// `g` of a group, and the groups concatenate to what the chunks do.
#[verifier::spinoff_prover]
#[verifier::rlimit(40)]
proof fn lemma_combine_groups<T, F: Fn(T, T) -> T>(
    op: F,
    g: spec_fn(Seq<T>) -> T,
    ok: spec_fn(Seq<T>) -> bool,
    chunks: Seq<Seq<T>>,
    vals: Seq<T>,
    r: T,
    states: Seq<Seq<T>>,
    pos: Seq<int>,
    t: int,
) -> (gs: Seq<Seq<T>>)
    requires
        is_function2(op),
        forall|x: Seq<T>, y: Seq<T>| ok(x) && ok(y) ==> #[trigger] ok(x + y) && g(x + y) == apply2(op, g(x), g(y)),
        chunks.len() == vals.len(),
        forall|j: int| 0 <= j < vals.len() ==> ok(#[trigger] chunks[j]) && vals[j] == g(chunks[j]),
        combine_trace(op, vals, r, states, pos),
        0 <= t < vals.len(),
    ensures
        gs.len() == states[t].len(),
        concat(gs) == concat(chunks),
        forall|i: int| 0 <= i < gs.len() ==> ok(#[trigger] gs[i]) && states[t][i] == g(gs[i]),
    decreases t,
{
    if t == 0 {
        chunks
    } else {
        let prev = lemma_combine_groups(op, g, ok, chunks, vals, r, states, pos, t - 1);
        let cur = states[t - 1];
        let next = states[t];
        let p = pos[t - 1];
        assert(merge_step(op, cur, next, p));
        let merged = prev[p] + prev[p + 1];
        let gs = prev.take(p) + seq![merged] + prev.skip(p + 2);
        assert(prev =~= prev.take(p) + seq![prev[p], prev[p + 1]] + prev.skip(p + 2));
        lemma_concat_append(prev.take(p) + seq![prev[p], prev[p + 1]], prev.skip(p + 2));
        lemma_concat_append(prev.take(p), seq![prev[p], prev[p + 1]]);
        lemma_concat_append(prev.take(p) + seq![merged], prev.skip(p + 2));
        lemma_concat_append(prev.take(p), seq![merged]);
        lemma_single_concat(merged);
        assert(concat(seq![prev[p], prev[p + 1]]) =~= prev[p] + prev[p + 1]) by {
            let two = seq![prev[p], prev[p + 1]];
            assert(two.drop_last() =~= seq![prev[p]]);
            lemma_single_concat(prev[p]);
        }
        assert(concat(gs) =~= concat(prev));
        assert(next[p] == apply2(op, cur[p], cur[p + 1]));
        assert forall|i: int| 0 <= i < gs.len() implies ok(#[trigger] gs[i]) && next[i] == g(gs[i]) by {
            if i < p {
                assert(next[i] == next.take(p)[i]);
                assert(cur[i] == cur.take(p)[i]);
            } else if i > p {
                assert(next[i] == next.skip(p + 1)[i - p - 1]);
                assert(cur[i + 1] == cur.skip(p + 2)[i - p - 1]);
                assert(gs[i] == prev[i + 1]);
            }
        }
        gs
    }
}

/// Combining, in some bracketing, values that a homomorphism `g` gives on consecutive
/// chunks gives `g` of their concatenation.
proof fn lemma_bracketed_hom<T, F: Fn(T, T) -> T>(
    op: F,
    g: spec_fn(Seq<T>) -> T,
    ok: spec_fn(Seq<T>) -> bool,
    chunks: Seq<Seq<T>>,
    vals: Seq<T>,
    r: T,
)
    requires
        is_function2(op),
        forall|x: Seq<T>, y: Seq<T>| ok(x) && ok(y) ==> #[trigger] ok(x + y) && g(x + y) == apply2(op, g(x), g(y)),
        chunks.len() == vals.len(),
        forall|j: int| 0 <= j < vals.len() ==> ok(#[trigger] chunks[j]) && vals[j] == g(chunks[j]),
        bracketed(op, vals, r),
    ensures
        r == g(concat(chunks)),
{
    let (states, pos) = choose|states: Seq<Seq<T>>, pos: Seq<int>| #[trigger] combine_trace(op, vals, r, states, pos);
    let gs = lemma_combine_groups(op, g, ok, chunks, vals, r, states, pos, vals.len() - 1);
    assert(states[vals.len() - 1] == seq![r]);
    assert(gs =~= seq![gs[0]]);
    lemma_single_concat(gs[0]);
}

// ---------------------------------------------------------------------------
// The same result either way

/// The folds of consecutive chunks of `s`, each from a value of `identity()`, are the
/// folds of those chunks from `e` when `identity` only gives `e`.
proof fn lemma_chunk_folds_from_identity<T, ID: Fn() -> T, OP: Fn(T, T) -> T>(
    identity: ID,
    op: OP,
    e: T,
    s: Seq<T>,
    vals: Seq<T>,
) -> (chunks: Seq<Seq<T>>)
    requires
        is_function2(op),
        gives_only(identity, e),
        chunk_folds(made_by(identity), op, s, vals),
    ensures
        concat(chunks) == s,
        chunks.len() == vals.len(),
        forall|j: int| 0 <= j < vals.len() ==> #[trigger] vals[j] == fold_fn(op, e, chunks[j]),
{
    let chunks = choose|chunks: Seq<Seq<T>>| #[trigger] chunked_folds(made_by(identity), op, s, vals, chunks);
    assert forall|j: int| 0 <= j < vals.len() implies #[trigger] vals[j] == fold_fn(op, e, chunks[j]) by {
        assert(folds_from(made_by(identity), op, chunks[j], vals[j]));
        let i = choose|i: T| #[trigger] made_by(identity)(i) && folds(op, i, chunks[j], vals[j]);
        lemma_folds_is_fold(op, i, chunks[j], vals[j]);
    }
    chunks
}

/// What a parallel reduction may give, with an associative function and an identity of
/// it, is the fold of the items in order.
proof fn lemma_reduces_is_fold<T, ID: Fn() -> T, OP: Fn(T, T) -> T>(identity: ID, op: OP, e: T, s: Seq<T>, r: T)
    requires
        is_function2(op),
        is_associative(op),
        is_identity(op, e),
        gives_only(identity, e),
        reduces(made_by(identity), op, s, r),
    ensures
        r == fold_fn(op, e, s),
{
    let vals = choose|vals: Seq<T>| #[trigger] chunk_folds(made_by(identity), op, s, vals) && bracketed(op, vals, r);
    let chunks = lemma_chunk_folds_from_identity(identity, op, e, s, vals);
    let g = |c: Seq<T>| fold_fn(op, e, c);
    let ok = |c: Seq<T>| true;
    assert forall|j: int| 0 <= j < vals.len() implies ok(#[trigger] chunks[j]) && vals[j] == g(chunks[j]) by {
        assert(vals[j] == fold_fn(op, e, chunks[j]));
    }
    assert forall|x: Seq<T>, y: Seq<T>| ok(x) && ok(y) implies #[trigger] ok(x + y) && g(x + y) == apply2(op, g(x), g(y)) by {
        lemma_fold_fn_split(op, e, x, y);
    }
    lemma_bracketed_hom(op, g, ok, chunks, vals, r);
}

/// `reduce` gives the same result in parallel as serially, however rayon cuts the items
/// and brackets the results, when `op` is an associative function and `identity` only
/// gives an identity `e` of it: the fold of the items in order.
pub proof fn law_reduce_same_either_way<T, ID: Fn() -> T, OP: Fn(T, T) -> T>(
    identity: ID,
    op: OP,
    e: T,
    s: Seq<T>,
    in_parallel: T,
    serially: T,
)
    requires
        is_function2(op),
        is_associative(op),
        is_identity(op, e),
        gives_only(identity, e),
        reduces(made_by(identity), op, s, in_parallel),
        folds_from(made_by(identity), op, s, serially),
    ensures
        in_parallel == serially,
        serially == fold_fn(op, e, s),
{
    let init = choose|init: T| #[trigger] made_by(identity)(init) && folds(op, init, s, serially);
    lemma_folds_is_fold(op, init, s, serially);
    lemma_reduces_is_fold(identity, op, e, s, in_parallel);
}

/// Folding with a function the folds of consecutive chunks, each from `e`, is folding
/// their concatenation from `e`, when `op` is associative with identity `e`.
proof fn lemma_fold_of_folds<T, F: Fn(T, T) -> T>(op: F, e: T, chunks: Seq<Seq<T>>, vals: Seq<T>)
    requires
        is_function2(op),
        is_associative(op),
        is_identity(op, e),
        chunks.len() == vals.len(),
        forall|j: int| 0 <= j < vals.len() ==> #[trigger] vals[j] == fold_fn(op, e, chunks[j]),
    ensures
        fold_fn(op, e, vals) == fold_fn(op, e, concat(chunks)),
    decreases chunks.len(),
{
    if chunks.len() > 0 {
        let cd = chunks.drop_last();
        let vd = vals.drop_last();
        assert forall|j: int| 0 <= j < vd.len() implies #[trigger] vd[j] == fold_fn(op, e, cd[j]) by {
            assert(vd[j] == vals[j]);
            assert(cd[j] == chunks[j]);
        }
        lemma_fold_of_folds(op, e, cd, vd);
        lemma_fold_fn_split(op, e, concat(cd), chunks.last());
        assert(vals.last() == vals[vals.len() - 1]);
    } else {
        assert(concat(chunks) =~= Seq::<T>::empty());
    }
}

/// `fold` followed by `reduce` with the same associative function and identity gives the
/// fold of the items in order, in parallel (one fold per piece that rayon cut) as
/// serially (one fold of all the items).
pub proof fn law_fold_then_reduce<T, ID: Fn() -> T, OP: Fn(T, T) -> T>(
    identity: ID,
    op: OP,
    e: T,
    s: Seq<T>,
    folds_made: Seq<T>,
    r: T,
)
    requires
        is_function2(op),
        is_associative(op),
        is_identity(op, e),
        gives_only(identity, e),
        chunk_folds(made_by(identity), op, s, folds_made),
        reduces(made_by(identity), op, folds_made, r),
    ensures
        r == fold_fn(op, e, s),
{
    let chunks = lemma_chunk_folds_from_identity(identity, op, e, s, folds_made);
    lemma_reduces_is_fold(identity, op, e, folds_made, r);
    lemma_fold_of_folds(op, e, chunks, folds_made);
}

/// `reduce_with` gives the same result in parallel as serially, however rayon cuts the
/// items and brackets the results, when `op` is an associative function: the fold of the
/// items in order from the first.
pub proof fn law_reduce_with_same_either_way<T, OP: Fn(T, T) -> T>(op: OP, s: Seq<T>, in_parallel: T, serially: T)
    requires
        is_function2(op),
        is_associative(op),
        reduces1(op, s, in_parallel),
        folds1(op, s, serially),
    ensures
        in_parallel == serially,
        serially == fold1_fn(op, s),
{
    lemma_folds_is_fold(op, s[0], s.drop_first(), serially);
    let (chunks, vals) = choose|chunks: Seq<Seq<T>>, vals: Seq<T>|
        #[trigger] reduced1_by(op, s, chunks, vals) && bracketed(op, vals, in_parallel);
    let g = |c: Seq<T>| fold1_fn(op, c);
    let ok = |c: Seq<T>| c.len() > 0;
    assert forall|j: int| 0 <= j < vals.len() implies ok(#[trigger] chunks[j]) && vals[j] == g(chunks[j]) by {
        assert(folds1(op, chunks[j], vals[j]));
        lemma_folds_is_fold(op, chunks[j][0], chunks[j].drop_first(), vals[j]);
    }
    assert forall|x: Seq<T>, y: Seq<T>| ok(x) && ok(y) implies #[trigger] ok(x + y) && g(x + y) == apply2(op, g(x), g(y)) by {
        lemma_fold1_fn_split(op, x, y);
    }
    lemma_bracketed_hom(op, g, ok, chunks, vals, in_parallel);
}

/// `map` gives the same items in parallel as serially when `f` is deterministic.
pub proof fn law_map_same_either_way<A, B, F: Fn(A) -> B>(f: F, s: Seq<A>, r1: Seq<B>, r2: Seq<B>)
    requires
        is_deterministic(f),
        mapped(f, s, r1),
        mapped(f, s, r2),
    ensures
        r1 == r2,
{
    assert forall|i: int| 0 <= i < r1.len() implies r1[i] == r2[i] by {
        assert(call_ensures(f, (s[i],), r1[i]));
        assert(call_ensures(f, (s[i],), r2[i]));
    }
    assert(r1 =~= r2);
}

/// `map_with` and `map_init` give the same items in parallel as serially when what `f`
/// answers on an item does not depend on the state.
pub proof fn law_map_with_same_either_way<S, A, B, F: Fn(&mut S, A) -> B>(f: F, s: Seq<A>, r1: Seq<B>, r2: Seq<B>)
    requires
        ignores_state(f),
        r1.len() == s.len(),
        r2.len() == s.len(),
        forall|i: int| 0 <= i < s.len() ==> answers_with_state(f, s[i], #[trigger] r1[i]),
        forall|i: int| 0 <= i < s.len() ==> answers_with_state(f, s[i], #[trigger] r2[i]),
    ensures
        r1 == r2,
{
    assert forall|i: int| 0 <= i < r1.len() implies r1[i] == r2[i] by {
        assert(answers_with_state(f, s[i], r1[i]));
        assert(answers_with_state(f, s[i], r2[i]));
        let m1 = choose|m: &mut S| call_ensures(f, (m, s[i]), r1[i]);
        let m2 = choose|m: &mut S| call_ensures(f, (m, s[i]), r2[i]);
        assert(call_ensures(f, (m1, s[i]), r1[i]));
        assert(call_ensures(f, (m2, s[i]), r2[i]));
    }
    assert(r1 =~= r2);
}

/// Answers of a deterministic predicate on the same items are the same.
proof fn lemma_same_answers<A, B, F: Fn(&A) -> B>(pred: F, s: Seq<A>, k1: Seq<B>, k2: Seq<B>)
    requires
        is_ref_deterministic(pred),
        ref_mapped(pred, s, k1),
        ref_mapped(pred, s, k2),
    ensures
        k1 == k2,
{
    assert forall|i: int| 0 <= i < k1.len() implies k1[i] == k2[i] by {
        assert(call_ensures(pred, (&s[i],), k1[i]));
        assert(call_ensures(pred, (&s[i],), k2[i]));
    }
    assert(k1 =~= k2);
}

/// `filter` keeps the same items in parallel as serially when `pred` is deterministic.
pub proof fn law_filter_same_either_way<A, F: Fn(&A) -> bool>(pred: F, s: Seq<A>, r1: Seq<A>, r2: Seq<A>)
    requires
        is_ref_deterministic(pred),
        filtered(pred, s, r1),
        filtered(pred, s, r2),
    ensures
        r1 == r2,
{
    let k1 = choose|keep: Seq<bool>| #[trigger] ref_mapped(pred, s, keep) && r1 == select(s, keep);
    let k2 = choose|keep: Seq<bool>| #[trigger] ref_mapped(pred, s, keep) && r2 == select(s, keep);
    lemma_same_answers(pred, s, k1, k2);
}

/// `partition` splits the items the same way in parallel as serially when `pred` is
/// deterministic.
pub proof fn law_partition_same_either_way<A, F: Fn(&A) -> bool>(
    pred: F,
    s: Seq<A>,
    yes1: Seq<A>,
    no1: Seq<A>,
    yes2: Seq<A>,
    no2: Seq<A>,
)
    requires
        is_ref_deterministic(pred),
        partitioned(pred, s, yes1, no1),
        partitioned(pred, s, yes2, no2),
    ensures
        yes1 == yes2,
        no1 == no2,
{
    let k1 = choose|keep: Seq<bool>|
        #[trigger] ref_mapped(pred, s, keep) && yes1 == select(s, keep) && no1 == select(s, negate(keep));
    let k2 = choose|keep: Seq<bool>|
        #[trigger] ref_mapped(pred, s, keep) && yes2 == select(s, keep) && no2 == select(s, negate(keep));
    lemma_same_answers(pred, s, k1, k2);
}

/// `filter_map` gives the same items in parallel as serially when `f` is deterministic.
pub proof fn law_filter_map_same_either_way<A, B, F: Fn(A) -> Option<B>>(f: F, s: Seq<A>, r1: Seq<B>, r2: Seq<B>)
    requires
        is_deterministic(f),
        filter_mapped(f, s, r1),
        filter_mapped(f, s, r2),
    ensures
        r1 == r2,
{
    let o1 = choose|outs: Seq<Option<B>>| #[trigger] mapped(f, s, outs) && r1 == somes(outs);
    let o2 = choose|outs: Seq<Option<B>>| #[trigger] mapped(f, s, outs) && r2 == somes(outs);
    law_map_same_either_way(f, s, o1, o2);
}

/// `flat_map` gives the same items in parallel as serially when `f` is deterministic.
pub proof fn law_flat_map_same_either_way<A, B, F: Fn(A) -> Vec<B>>(f: F, s: Seq<A>, r1: Seq<B>, r2: Seq<B>)
    requires
        is_deterministic(f),
        flat_mapped(f, s, r1),
        flat_mapped(f, s, r2),
    ensures
        r1 == r2,
{
    let o1 = choose|outs: Seq<Vec<B>>| #[trigger] mapped(f, s, outs) && r1 == concat_vecs(outs);
    let o2 = choose|outs: Seq<Vec<B>>| #[trigger] mapped(f, s, outs) && r2 == concat_vecs(outs);
    law_map_same_either_way(f, s, o1, o2);
}

/// `find_first` finds the same item in parallel as serially when `pred` is
/// deterministic.
pub proof fn law_find_first_same_either_way<A, P: Fn(&A) -> bool>(pred: P, s: Seq<A>, r1: Option<A>, r2: Option<A>)
    requires
        is_ref_deterministic(pred),
        finds_first(pred, s, r1),
        finds_first(pred, s, r2),
    ensures
        r1 == r2,
{
    if r1 is Some && r2 is Some {
        let j1 = choose|j: int| 0 <= j < s.len() && r1->0 == #[trigger] s[j] && call_ensures(pred, (&s[j],), true)
            && forall|i: int| 0 <= i < j ==> call_ensures(pred, (&#[trigger] s[i],), false);
        let j2 = choose|j: int| 0 <= j < s.len() && r2->0 == #[trigger] s[j] && call_ensures(pred, (&s[j],), true)
            && forall|i: int| 0 <= i < j ==> call_ensures(pred, (&#[trigger] s[i],), false);
        if j1 < j2 {
            assert(call_ensures(pred, (&s[j1],), false));
        } else if j2 < j1 {
            assert(call_ensures(pred, (&s[j2],), false));
        }
    } else if r1 is Some {
        let j1 = choose|j: int| 0 <= j < s.len() && r1->0 == #[trigger] s[j] && call_ensures(pred, (&s[j],), true)
            && forall|i: int| 0 <= i < j ==> call_ensures(pred, (&#[trigger] s[i],), false);
        assert(call_ensures(pred, (&s[j1],), false));
    } else if r2 is Some {
        let j2 = choose|j: int| 0 <= j < s.len() && r2->0 == #[trigger] s[j] && call_ensures(pred, (&s[j],), true)
            && forall|i: int| 0 <= i < j ==> call_ensures(pred, (&#[trigger] s[i],), false);
        assert(call_ensures(pred, (&s[j2],), false));
    }
}

/// `find_last` finds the same item in parallel as serially when `pred` is
/// deterministic.
pub proof fn law_find_last_same_either_way<A, P: Fn(&A) -> bool>(pred: P, s: Seq<A>, r1: Option<A>, r2: Option<A>)
    requires
        is_ref_deterministic(pred),
        finds_last(pred, s, r1),
        finds_last(pred, s, r2),
    ensures
        r1 == r2,
{
    if r1 is Some && r2 is Some {
        let j1 = choose|j: int| 0 <= j < s.len() && r1->0 == #[trigger] s[j] && call_ensures(pred, (&s[j],), true)
            && forall|i: int| j < i < s.len() ==> call_ensures(pred, (&#[trigger] s[i],), false);
        let j2 = choose|j: int| 0 <= j < s.len() && r2->0 == #[trigger] s[j] && call_ensures(pred, (&s[j],), true)
            && forall|i: int| j < i < s.len() ==> call_ensures(pred, (&#[trigger] s[i],), false);
        if j1 < j2 {
            assert(call_ensures(pred, (&s[j2],), false));
        } else if j2 < j1 {
            assert(call_ensures(pred, (&s[j1],), false));
        }
    } else if r1 is Some {
        let j1 = choose|j: int| 0 <= j < s.len() && r1->0 == #[trigger] s[j] && call_ensures(pred, (&s[j],), true)
            && forall|i: int| j < i < s.len() ==> call_ensures(pred, (&#[trigger] s[i],), false);
        assert(call_ensures(pred, (&s[j1],), false));
    } else if r2 is Some {
        let j2 = choose|j: int| 0 <= j < s.len() && r2->0 == #[trigger] s[j] && call_ensures(pred, (&s[j],), true)
            && forall|i: int| j < i < s.len() ==> call_ensures(pred, (&#[trigger] s[i],), false);
        assert(call_ensures(pred, (&s[j2],), false));
    }
}

/// `position_first` finds the same place in parallel as serially when `pred` is
/// deterministic.
pub proof fn law_position_first_same_either_way<A, P: Fn(A) -> bool>(pred: P, s: Seq<A>, r1: Option<usize>, r2: Option<usize>)
    requires
        is_deterministic(pred),
        places_first(pred, s, r1),
        places_first(pred, s, r2),
    ensures
        r1 == r2,
{
    if r1 is Some && r2 is Some {
        let j1 = r1->0 as int;
        let j2 = r2->0 as int;
        if j1 < j2 {
            assert(call_ensures(pred, (s[j1],), false));
        } else if j2 < j1 {
            assert(call_ensures(pred, (s[j2],), false));
        }
    } else if r1 is Some {
        assert(call_ensures(pred, (s[r1->0 as int],), false));
    } else if r2 is Some {
        assert(call_ensures(pred, (s[r2->0 as int],), false));
    }
}

/// `position_last` finds the same place in parallel as serially when `pred` is
/// deterministic.
pub proof fn law_position_last_same_either_way<A, P: Fn(A) -> bool>(pred: P, s: Seq<A>, r1: Option<usize>, r2: Option<usize>)
    requires
        is_deterministic(pred),
        places_last(pred, s, r1),
        places_last(pred, s, r2),
    ensures
        r1 == r2,
{
    if r1 is Some && r2 is Some {
        let j1 = r1->0 as int;
        let j2 = r2->0 as int;
        if j1 < j2 {
            assert(call_ensures(pred, (s[j2],), false));
        } else if j2 < j1 {
            assert(call_ensures(pred, (s[j1],), false));
        }
    } else if r1 is Some {
        assert(call_ensures(pred, (s[r1->0 as int],), false));
    } else if r2 is Some {
        assert(call_ensures(pred, (s[r2->0 as int],), false));
    }
}

/// `any` answers the same in parallel as serially when `pred` is deterministic.
pub proof fn law_any_same_either_way<A, P: Fn(A) -> bool>(pred: P, s: Seq<A>, r1: bool, r2: bool)
    requires
        is_deterministic(pred),
        answers_any(pred, s, r1),
        answers_any(pred, s, r2),
    ensures
        r1 == r2,
{
    if r1 && !r2 {
        let j = choose|j: int| 0 <= j < s.len() && call_ensures(pred, (#[trigger] s[j],), true);
        assert(call_ensures(pred, (s[j],), false));
    } else if r2 && !r1 {
        let j = choose|j: int| 0 <= j < s.len() && call_ensures(pred, (#[trigger] s[j],), true);
        assert(call_ensures(pred, (s[j],), false));
    }
}

/// `all` answers the same in parallel as serially when `pred` is deterministic.
pub proof fn law_all_same_either_way<A, P: Fn(A) -> bool>(pred: P, s: Seq<A>, r1: bool, r2: bool)
    requires
        is_deterministic(pred),
        answers_all(pred, s, r1),
        answers_all(pred, s, r2),
    ensures
        r1 == r2,
{
    if r1 && !r2 {
        let j = choose|j: int| 0 <= j < s.len() && call_ensures(pred, (#[trigger] s[j],), false);
        assert(call_ensures(pred, (s[j],), true));
    } else if r2 && !r1 {
        let j = choose|j: int| 0 <= j < s.len() && call_ensures(pred, (#[trigger] s[j],), false);
        assert(call_ensures(pred, (s[j],), true));
    }
}

/// The first place of a least key is one place only.
proof fn lemma_first_min_unique(keys: Seq<u64>, j1: int, j2: int)
    requires
        is_first_min(keys, j1),
        is_first_min(keys, j2),
    ensures
        j1 == j2,
{
    if j1 < j2 {
        assert(keys[j2] < keys[j1]);
        assert(keys[j1] <= keys[j2]);
    } else if j2 < j1 {
        assert(keys[j1] < keys[j2]);
        assert(keys[j2] <= keys[j1]);
    }
}

/// The last place of a greatest key is one place only.
proof fn lemma_last_max_unique(keys: Seq<u64>, j1: int, j2: int)
    requires
        is_last_max(keys, j1),
        is_last_max(keys, j2),
    ensures
        j1 == j2,
{
    if j1 < j2 {
        assert(keys[j2] < keys[j1]);
        assert(keys[j2] <= keys[j1]);
        assert(keys[j1] <= keys[j2]);
    } else if j2 < j1 {
        assert(keys[j1] < keys[j2]);
        assert(keys[j2] <= keys[j1]);
    }
}

/// `min_by_key` picks the same item in parallel as serially when `f` is deterministic.
pub proof fn law_min_by_key_same_either_way<A, F: Fn(&A) -> u64>(f: F, s: Seq<A>, r1: Option<A>, r2: Option<A>)
    requires
        is_ref_deterministic(f),
        least_by_key(f, s, r1),
        least_by_key(f, s, r2),
    ensures
        r1 == r2,
{
    if r1 is Some {
        let (k1, j1) = choose|keys: Seq<u64>, j: int| ref_mapped(f, s, keys) && #[trigger] is_first_min(keys, j) && r1->0 == s[j];
        let (k2, j2) = choose|keys: Seq<u64>, j: int| ref_mapped(f, s, keys) && #[trigger] is_first_min(keys, j) && r2->0 == s[j];
        lemma_same_answers(f, s, k1, k2);
        lemma_first_min_unique(k1, j1, j2);
    }
}

/// `max_by_key` picks the same item in parallel as serially when `f` is deterministic.
pub proof fn law_max_by_key_same_either_way<A, F: Fn(&A) -> u64>(f: F, s: Seq<A>, r1: Option<A>, r2: Option<A>)
    requires
        is_ref_deterministic(f),
        greatest_by_key(f, s, r1),
        greatest_by_key(f, s, r2),
    ensures
        r1 == r2,
{
    if r1 is Some {
        let (k1, j1) = choose|keys: Seq<u64>, j: int| ref_mapped(f, s, keys) && #[trigger] is_last_max(keys, j) && r1->0 == s[j];
        let (k2, j2) = choose|keys: Seq<u64>, j: int| ref_mapped(f, s, keys) && #[trigger] is_last_max(keys, j) && r2->0 == s[j];
        lemma_same_answers(f, s, k1, k2);
        lemma_last_max_unique(k1, j1, j2);
    }
}

/// `min_by` picks the same item in parallel as serially when `f` is a total order.
pub proof fn law_min_by_same_either_way<T, F: Fn(&T, &T) -> Ordering>(f: F, s: Seq<T>, r1: Option<T>, r2: Option<T>)
    requires
        is_total_order(f),
        r1 is None <==> s.len() == 0,
        r2 is None <==> s.len() == 0,
        picks_first_least(f, s, r1),
        picks_first_least(f, s, r2),
    ensures
        r1 == r2,
{
    if s.len() > 0 {
        let j1 = choose|j: int| #[trigger] is_first_least(f, s, j) && r1->0 == s[j];
        let j2 = choose|j: int| #[trigger] is_first_least(f, s, j) && r2->0 == s[j];
        if j1 < j2 {
            assert(order_of(f, s[j1], s[j2]) == Ordering::Greater);
            assert(order_of(f, s[j1], s[j2]) != Ordering::Greater);
        } else if j2 < j1 {
            assert(order_of(f, s[j2], s[j1]) == Ordering::Greater);
            assert(order_of(f, s[j2], s[j1]) != Ordering::Greater);
        }
    }
}

/// `max_by` picks the same item in parallel as serially when `f` is a total order.
pub proof fn law_max_by_same_either_way<T, F: Fn(&T, &T) -> Ordering>(f: F, s: Seq<T>, r1: Option<T>, r2: Option<T>)
    requires
        is_total_order(f),
        r1 is None <==> s.len() == 0,
        r2 is None <==> s.len() == 0,
        picks_last_greatest(f, s, r1),
        picks_last_greatest(f, s, r2),
    ensures
        r1 == r2,
{
    if s.len() > 0 {
        let j1 = choose|j: int| #[trigger] is_last_greatest(f, s, j) && r1->0 == s[j];
        let j2 = choose|j: int| #[trigger] is_last_greatest(f, s, j) && r2->0 == s[j];
        if j1 < j2 {
            assert(order_of(f, s[j1], s[j2]) == Ordering::Greater);
            assert(order_of(f, s[j1], s[j2]) != Ordering::Less);
            assert(order_of(f, s[j2], s[j1]) != Ordering::Less);
        } else if j2 < j1 {
            assert(order_of(f, s[j2], s[j1]) == Ordering::Greater);
            assert(order_of(f, s[j1], s[j2]) != Ordering::Less);
        }
    }
}

// ---------------------------------------------------------------------------
// How the operations fit together

/// `rev` twice gives the items back.
pub proof fn law_rev_rev<A>(s: Seq<A>)
    ensures
        reverse_of(reverse_of(s)) == s,
{
    lemma_reverse_reverse(s);
}

/// `take(n)` followed by `skip(n)` gives the items back.
pub proof fn law_take_then_skip<A>(s: Seq<A>, n: int)
    requires
        0 <= n,
    ensures
        take_of(s, n) + skip_of(s, n) == s,
{
    assert(take_of(s, n) + skip_of(s, n) =~= s);
}

/// `enumerate` followed by `unzip` gives the places `0, 1, ...` and the items.
pub proof fn law_enumerate_unzip<A>(s: Seq<A>)
    requires
        s.len() <= usize::MAX,
    ensures
        seconds(enumerate_of(s)) == s,
        forall|i: int| 0 <= i < s.len() ==> #[trigger] firsts(enumerate_of(s))[i] == i,
        firsts(enumerate_of(s)).len() == s.len(),
{
    assert(seconds(enumerate_of(s)) =~= s);
}

/// `interleave` keeps every item of both sides.
pub proof fn law_interleave_len<A>(s: Seq<A>, t: Seq<A>)
    ensures
        interleave_of(s, t).len() == s.len() + t.len(),
    decreases s.len() + t.len(),
{
    if s.len() > 0 {
        law_interleave_len(t, s.drop_first());
    }
}

/// `partition` puts every item on one side or the other.
pub proof fn law_partition_sizes<A, F: Fn(&A) -> bool>(pred: F, s: Seq<A>, yes: Seq<A>, no: Seq<A>)
    requires
        partitioned(pred, s, yes, no),
    ensures
        yes.len() + no.len() == s.len(),
{
    let keep = choose|keep: Seq<bool>|
        #[trigger] ref_mapped(pred, s, keep) && yes == select(s, keep) && no == select(s, negate(keep));
    lemma_select_sizes(s, keep);
}

/// Keeping by some flags and by the negated flags splits the items.
proof fn lemma_select_sizes<A>(s: Seq<A>, keep: Seq<bool>)
    requires
        keep.len() == s.len(),
    ensures
        select(s, keep).len() + select(s, negate(keep)).len() == s.len(),
    decreases s.len(),
{
    if s.len() > 0 {
        assert(negate(keep).drop_last() =~= negate(keep.drop_last()));
        lemma_select_sizes(s.drop_last(), keep.drop_last());
    }
}

/// `chain` followed by `sum` is the sum of the two sums.
pub proof fn law_chain_sum(s: Seq<u64>, t: Seq<u64>)
    ensures
        sum_of(s + t) == sum_of(s) + sum_of(t),
    decreases t.len(),
{
    if t.len() == 0 {
        assert(s + t =~= s);
    } else {
        law_chain_sum(s, t.drop_last());
        assert((s + t).drop_last() =~= s + t.drop_last());
    }
}

/// `min` is an item, and at most every item; `max` likewise at least every item.
pub proof fn law_min_max(s: Seq<u64>)
    requires
        s.len() > 0,
    ensures
        s.contains(min_of(s)),
        s.contains(max_of(s)),
        forall|i: int| 0 <= i < s.len() ==> min_of(s) <= #[trigger] s[i] && s[i] <= max_of(s),
    decreases s.len(),
{
    if s.len() > 1 {
        law_min_max(s.drop_last());
        let m = min_of(s.drop_last());
        let mx = max_of(s.drop_last());
        assert(s.drop_last().contains(m));
        assert(s.drop_last().contains(mx));
        let jm = choose|j: int| 0 <= j < s.drop_last().len() && s.drop_last()[j] == m;
        let jx = choose|j: int| 0 <= j < s.drop_last().len() && s.drop_last()[j] == mx;
        assert(s[jm] == m);
        assert(s[jx] == mx);
        assert forall|i: int| 0 <= i < s.len() implies min_of(s) <= #[trigger] s[i] && s[i] <= max_of(s) by {
            if i < s.len() - 1 {
                assert(s[i] == s.drop_last()[i]);
            }
        }
        assert(s[s.len() - 1] == s.last());
    } else {
        assert(s[0] == min_of(s));
    }
}

} // verus!
