//! Lemmas about the model that the loops of the serial side need.
use vstd::prelude::*;
use crate::model::{
    all_some, chunk_folds, chunked_folds, concat, concat_vecs, folds_from, interleave_of, is_run_end,
    agree_upto, at, bracketed, combine_trace, first_difference, is_subseq, leading_somes, reverse_of, select, somes, sum_of,
};

verus! {

/// Keeping one more item, flagged `b`.
pub proof fn lemma_select_push<A>(s: Seq<A>, keep: Seq<bool>, x: A, b: bool)
    requires
        keep.len() == s.len(),
    ensures
        select(s.push(x), keep.push(b)) == if b { select(s, keep).push(x) } else { select(s, keep) },
{
    assert(s.push(x).drop_last() =~= s);
    assert(keep.push(b).drop_last() =~= keep);
}

/// The first `i + 1` items are the first `i` and item `i`.
pub proof fn lemma_take_push<A>(s: Seq<A>, i: int)
    requires
        0 <= i < s.len(),
    ensures
        s.take(i + 1) == s.take(i).push(s[i]),
{
    assert(s.take(i + 1) =~= s.take(i).push(s[i]));
}

/// Taking all the items of `s` gives `s`.
pub proof fn lemma_take_all<A>(s: Seq<A>)
    ensures
        s.take(s.len() as int) == s,
{
    assert(s.take(s.len() as int) =~= s);
}

/// One more answer of a `filter_map` closure.
pub proof fn lemma_somes_push<A>(outs: Seq<Option<A>>, o: Option<A>)
    ensures
        somes(outs.push(o)) == match o {
            Some(x) => somes(outs).push(x),
            None => somes(outs),
        },
{
    assert(outs.push(o).drop_last() =~= outs);
}

/// One more vector at the end.
pub proof fn lemma_concat_vecs_push<A>(vs: Seq<Vec<A>>, v: Vec<A>)
    ensures
        concat_vecs(vs.push(v)) == concat_vecs(vs) + v@,
{
    let ss = vs.push(v).map_values(|w: Vec<A>| w@);
    assert(ss.drop_last() =~= vs.map_values(|w: Vec<A>| w@));
    assert(ss.last() == v@);
}

/// A single value is combined from itself.
pub proof fn lemma_bracketed_single<T, F: Fn(T, T) -> T>(op: F, r: T)
    ensures
        bracketed(op, seq![r], r),
{
    let states = seq![seq![r]];
    let pos = Seq::<int>::empty();
    assert(combine_trace(op, seq![r], r, states, pos));
}

/// One chunk concatenates to itself.
pub proof fn lemma_single_concat<A>(s: Seq<A>)
    ensures
        concat(seq![s]) == s,
{
    let chunks = seq![s];
    assert(chunks.drop_last() =~= Seq::<Seq<A>>::empty());
    assert(concat(chunks.drop_last()) =~= Seq::<A>::empty());
    assert(concat(chunks) =~= s);
}

/// A whole sequence folded as one chunk.
pub proof fn lemma_one_chunk<T, A, F: Fn(T, A) -> T>(start_ok: spec_fn(T) -> bool, op: F, s: Seq<A>, v: T)
    requires
        folds_from(start_ok, op, s, v),
    ensures
        chunk_folds(start_ok, op, s, seq![v]),
{
    let chunks = seq![s];
    assert(chunks.drop_last() =~= Seq::<Seq<A>>::empty());
    assert(concat(chunks.drop_last()) =~= Seq::<A>::empty());
    assert(concat(chunks) == concat(chunks.drop_last()) + chunks.last());
    assert(concat(chunks) =~= s);
    assert(chunked_folds(start_ok, op, s, seq![v], chunks));
}

/// The `Some` values of two sequences one after the other.
pub proof fn lemma_somes_append<A>(a: Seq<Option<A>>, b: Seq<Option<A>>)
    ensures
        somes(a + b) == somes(a) + somes(b),
    decreases b.len(),
{
    if b.len() == 0 {
        assert(a + b =~= a);
        assert(somes(a) + somes(b) =~= somes(a));
    } else {
        lemma_somes_append(a, b.drop_last());
        assert((a + b).drop_last() =~= a + b.drop_last());
        assert((a + b).last() == b.last());
        match b.last() {
            Some(x) => {
                assert(somes(a) + somes(b) =~= (somes(a) + somes(b.drop_last())).push(x));
            },
            None => {},
        }
    }
}

/// The flags that keep the first `n` of `m` items.
pub open spec fn prefix_keep(n: int, m: nat) -> Seq<bool> {
    Seq::new(m, |i: int| i < n)
}

/// Keeping the first `n` items gives the first `n` items.
pub proof fn lemma_select_prefix<A>(b: Seq<A>, n: int)
    requires
        0 <= n,
    ensures
        select(b, prefix_keep(n, b.len())) == b.take(if n <= b.len() { n } else { b.len() as int }),
    decreases b.len(),
{
    if b.len() == 0 {
        assert(b.take(0) =~= Seq::<A>::empty());
    } else {
        let bd = b.drop_last();
        lemma_select_prefix(bd, n);
        assert(prefix_keep(n, b.len()).drop_last() =~= prefix_keep(n, bd.len()));
        if n >= b.len() {
            assert(bd.take(bd.len() as int) =~= bd);
            assert(b.take(b.len() as int) =~= b);
            assert(bd.push(b.last()) =~= b);
        } else {
            assert(bd.take(n) =~= b.take(n));
        }
    }
}

/// A sequence is a subsequence of itself followed by more.
pub proof fn lemma_prefix_subseq<A>(a: Seq<A>, c: Seq<A>)
    ensures
        is_subseq(a, a + c),
{
    let keep = prefix_keep(a.len() as int, (a + c).len());
    lemma_select_prefix(a + c, a.len() as int);
    assert((a + c).take(a.len() as int) =~= a);
    assert(keep.len() == (a + c).len() && a == select(a + c, keep));
}

/// The leading run of `Some` items ends at one place only; its values are a
/// subsequence of all `Some` values, and all of them when there is no `None`.
pub proof fn lemma_leading_somes<A>(s: Seq<Option<A>>, p: int)
    requires
        is_run_end(s, p),
    ensures
        leading_somes(s) == somes(s.take(p)),
        is_subseq(somes(s.take(p)), somes(s)),
        all_some(s) ==> somes(s.take(p)) == somes(s),
{
    let q = choose|q: int| is_run_end(s, q);
    assert(is_run_end(s, q));
    if q < p {
        assert(s[q] is Some);
    }
    if p < q {
        assert(s[p] is Some);
    }
    assert(q == p);
    assert(s =~= s.take(p) + s.skip(p));
    lemma_somes_append(s.take(p), s.skip(p));
    lemma_prefix_subseq(somes(s.take(p)), somes(s.skip(p)));
    if all_some(s) {
        if p < s.len() {
            assert(s[p] is Some);
        }
        assert(s.take(p) =~= s);
    }
}

/// Interleaving with nothing leaves a sequence as it is.
pub proof fn lemma_interleave_empty<A>(x: Seq<A>)
    ensures
        interleave_of(x, Seq::<A>::empty()) == x,
        interleave_of(Seq::<A>::empty(), x) == x,
{
    if x.len() > 0 {
        assert(interleave_of(x, Seq::<A>::empty()) == seq![x[0]] + interleave_of(Seq::<A>::empty(), x.drop_first()));
        assert(seq![x[0]] + x.drop_first() =~= x);
    }
}

/// Popping a stack takes the first item of its reverse.
pub proof fn lemma_reverse_pop<A>(st: Seq<A>)
    requires
        st.len() > 0,
    ensures
        reverse_of(st)[0] == st.last(),
        reverse_of(st.drop_last()) == reverse_of(st).drop_first(),
{
    assert(reverse_of(st.drop_last()) =~= reverse_of(st).drop_first());
}

/// Reversing twice gives the sequence back.
pub proof fn lemma_reverse_reverse<A>(s: Seq<A>)
    ensures
        reverse_of(reverse_of(s)) == s,
{
    assert(reverse_of(reverse_of(s)) =~= s);
}

/// A prefix sums to at most the whole.
pub proof fn lemma_sum_prefix(s: Seq<u64>, i: int)
    requires
        0 <= i <= s.len(),
    ensures
        sum_of(s.take(i)) <= sum_of(s),
    decreases s.len(),
{
    if i < s.len() {
        lemma_sum_prefix(s.drop_last(), i);
        assert(s.drop_last().take(i) =~= s.take(i));
    } else {
        assert(s.take(i) =~= s);
    }
}

/// Where `a` and `b` agree before `i` and differ at `i`, `i` is their first difference,
/// the one that the lexicographic order looks at.
pub proof fn lemma_first_difference_at(a: Seq<u64>, b: Seq<u64>, i: usize)
    requires
        i < a.len(),
        i < b.len(),
        agree_upto(a, b, i),
        at(a, i) != at(b, i),
    ensures
        exists|j: int| #[trigger] first_difference(a, b, j),
        a[choose|j: int| #[trigger] first_difference(a, b, j)] == at(a, i),
        b[choose|j: int| #[trigger] first_difference(a, b, j)] == at(b, i),
{
    assert(first_difference(a, b, i as int));
    let j = choose|j: int| #[trigger] first_difference(a, b, j);
    if j < i {
        assert(a[j] == b[j]);
    }
    if i < j {
        assert(a[i as int] == b[i as int]);
    }
}

/// Some difference within both implies a first one.
pub proof fn lemma_some_difference(a: Seq<u64>, b: Seq<u64>, k: int)
    requires
        0 <= k < a.len(),
        k < b.len(),
        a[k] != b[k],
    ensures
        exists|j: int| #[trigger] first_difference(a, b, j),
    decreases k,
{
    if forall|j: int| 0 <= j < k ==> a[j] == b[j] {
        assert(first_difference(a, b, k));
    } else {
        let j = choose|j: int| 0 <= j < k && a[j] != b[j];
        lemma_some_difference(a, b, j);
    }
}

/// `a` and `b` have no first difference exactly when they agree as far as the shorter
/// goes.
pub proof fn lemma_no_first_difference(a: Seq<u64>, b: Seq<u64>)
    ensures
        (forall|k: int| 0 <= k < a.len() && k < b.len() ==> a[k] == b[k])
            <==> !exists|j: int| #[trigger] first_difference(a, b, j),
{
    if exists|k: int| 0 <= k < a.len() && k < b.len() && a[k] != b[k] {
        let k = choose|k: int| 0 <= k < a.len() && k < b.len() && a[k] != b[k];
        lemma_some_difference(a, b, k);
    }
}

} // verus!
