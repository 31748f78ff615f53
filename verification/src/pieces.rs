//! What the operations compute, stated piece by piece: for each way of collecting,
//! adding up, multiplying or rearranging items, what it gives on a single item and how
//! it combines over two runs of items placed one after the other. Together these fix
//! each result for every input.
use vstd::prelude::*;
use crate::side::Either;
use crate::lemmas::{lemma_interleave_empty, lemma_leading_somes, lemma_single_concat, lemma_somes_append};
use crate::laws::{law_chain_sum, lemma_concat_append};
use crate::model::{
    mapped, ref_mapped, folds, fold_trace, concat_vecs, interspersed, reached_by_clones,
    concat, firsts, interleave_of, interleave_shortest_of, is_run_end, leading_somes, lefts, product_of, reverse_of, rights, seconds, select,
    skip_of, somes, sum_of, take_of, zip_of,
};

verus! {

/// `filter` and `partition` keep items in order: a single item is kept exactly when its
/// flag is set, and keeping over two runs of items is keeping over each, one after the
/// other.
pub proof fn law_select_pieces<A>(a: Seq<A>, ka: Seq<bool>, b: Seq<A>, kb: Seq<bool>, x: A)
    requires
        ka.len() == a.len(),
        kb.len() == b.len(),
    ensures
        select(a + b, ka + kb) == select(a, ka) + select(b, kb),
        select(seq![x], seq![true]) == seq![x],
        select(seq![x], seq![false]) == Seq::<A>::empty(),
    decreases b.len(),
{
    assert(seq![x].drop_last() =~= Seq::<A>::empty());
    assert(seq![true].drop_last() =~= Seq::<bool>::empty());
    assert(seq![false].drop_last() =~= Seq::<bool>::empty());
    assert(select(Seq::<A>::empty(), Seq::<bool>::empty()) == Seq::<A>::empty());
    assert(select(seq![x], seq![true]) == select(Seq::<A>::empty(), Seq::<bool>::empty()).push(x));
    assert(select(seq![x], seq![false]) == select(Seq::<A>::empty(), Seq::<bool>::empty()));
    assert(Seq::<A>::empty().push(x) =~= seq![x]);
    if b.len() == 0 {
        assert(a + b =~= a);
        assert(ka + kb =~= ka);
        assert(select(a, ka) + select(b, kb) =~= select(a, ka));
    } else {
        law_select_pieces(a, ka, b.drop_last(), kb.drop_last(), x);
        assert((a + b).drop_last() =~= a + b.drop_last());
        assert((ka + kb).drop_last() =~= ka + kb.drop_last());
        assert((ka + kb)[(a + b).len() - 1] == kb[b.len() - 1]);
        if kb[b.len() - 1] {
            assert(select(a, ka) + select(b, kb) =~= (select(a, ka) + select(b.drop_last(), kb.drop_last())).push(b.last()));
        }
    }
}

/// `filter_map` keeps the `Some` values in order: a single answer gives its value or
/// nothing, and two runs of answers give theirs one after the other.
pub proof fn law_somes_pieces<A>(a: Seq<Option<A>>, b: Seq<Option<A>>, x: A)
    ensures
        somes(a + b) == somes(a) + somes(b),
        somes(seq![Some(x)]) == seq![x],
        somes(seq![None::<A>]) == Seq::<A>::empty(),
{
    lemma_somes_append(a, b);
    assert(seq![Some(x)].drop_last() =~= Seq::<Option<A>>::empty());
    assert(seq![None::<A>].drop_last() =~= Seq::<Option<A>>::empty());
    assert(somes(Seq::<Option<A>>::empty()) == Seq::<A>::empty());
    assert(somes(seq![Some(x)]) == somes(Seq::<Option<A>>::empty()).push(x));
    assert(somes(seq![None::<A>]) == somes(Seq::<Option<A>>::empty()));
    assert(Seq::<A>::empty().push(x) =~= seq![x]);
}

/// The left side of `partition_map` holds the `Left` values in order: a single answer
/// gives its value or nothing, and two runs of answers give theirs one after the other.
pub proof fn law_lefts_pieces<L, R>(a: Seq<Either<L, R>>, b: Seq<Either<L, R>>, l: L, r: R)
    ensures
        lefts(a + b) == lefts(a) + lefts(b),
        lefts(seq![Either::<L, R>::Left(l)]) == seq![l],
        lefts(seq![Either::<L, R>::Right(r)]) == Seq::<L>::empty(),
    decreases b.len(),
{
    assert(seq![Either::<L, R>::Left(l)].drop_last() =~= Seq::<Either<L, R>>::empty());
    assert(seq![Either::<L, R>::Right(r)].drop_last() =~= Seq::<Either<L, R>>::empty());
    assert(lefts(Seq::<Either<L, R>>::empty()) == Seq::<L>::empty());
    assert(lefts(seq![Either::<L, R>::Left(l)]) == lefts(Seq::<Either<L, R>>::empty()).push(l));
    assert(lefts(seq![Either::<L, R>::Right(r)]) == lefts(Seq::<Either<L, R>>::empty()));
    assert(Seq::<L>::empty().push(l) =~= seq![l]);
    if b.len() == 0 {
        assert(a + b =~= a);
        assert(lefts(a) + lefts(b) =~= lefts(a));
    } else {
        law_lefts_pieces(a, b.drop_last(), l, r);
        assert((a + b).drop_last() =~= a + b.drop_last());
        assert((a + b).last() == b.last());
        match b.last() {
            Either::Left(v) => {
                assert(lefts(a) + lefts(b) =~= (lefts(a) + lefts(b.drop_last())).push(v));
            },
            Either::Right(_) => {},
        }
    }
}

/// The right side of `partition_map` holds the `Right` values in order: a single answer
/// gives its value or nothing, and two runs of answers give theirs one after the other.
pub proof fn law_rights_pieces<L, R>(a: Seq<Either<L, R>>, b: Seq<Either<L, R>>, l: L, r: R)
    ensures
        rights(a + b) == rights(a) + rights(b),
        rights(seq![Either::<L, R>::Right(r)]) == seq![r],
        rights(seq![Either::<L, R>::Left(l)]) == Seq::<R>::empty(),
    decreases b.len(),
{
    assert(seq![Either::<L, R>::Left(l)].drop_last() =~= Seq::<Either<L, R>>::empty());
    assert(seq![Either::<L, R>::Right(r)].drop_last() =~= Seq::<Either<L, R>>::empty());
    assert(rights(Seq::<Either<L, R>>::empty()) == Seq::<R>::empty());
    assert(rights(seq![Either::<L, R>::Right(r)]) == rights(Seq::<Either<L, R>>::empty()).push(r));
    assert(rights(seq![Either::<L, R>::Left(l)]) == rights(Seq::<Either<L, R>>::empty()));
    assert(Seq::<R>::empty().push(r) =~= seq![r]);
    if b.len() == 0 {
        assert(a + b =~= a);
        assert(rights(a) + rights(b) =~= rights(a));
    } else {
        law_rights_pieces(a, b.drop_last(), l, r);
        assert((a + b).drop_last() =~= a + b.drop_last());
        assert((a + b).last() == b.last());
        match b.last() {
            Either::Right(v) => {
                assert(rights(a) + rights(b) =~= (rights(a) + rights(b.drop_last())).push(v));
            },
            Either::Left(_) => {},
        }
    }
}

/// `flat_map` and `flatten` put the pieces one after another: a single piece gives
/// itself, and two runs of pieces give theirs one after the other.
pub proof fn law_concat_pieces<A>(a: Seq<Seq<A>>, b: Seq<Seq<A>>, x: Seq<A>)
    ensures
        concat(a + b) == concat(a) + concat(b),
        concat(seq![x]) == x,
{
    lemma_concat_append(a, b);
    lemma_single_concat(x);
}

/// `unzip` gives the components in order: a single pair gives its components, and two
/// runs of pairs give theirs one after the other.
pub proof fn law_unzip_pieces<A, B>(a: Seq<(A, B)>, b: Seq<(A, B)>, x: A, y: B)
    ensures
        firsts(a + b) == firsts(a) + firsts(b),
        seconds(a + b) == seconds(a) + seconds(b),
        firsts(seq![(x, y)]) == seq![x],
        seconds(seq![(x, y)]) == seq![y],
{
    assert(firsts(a + b) =~= firsts(a) + firsts(b));
    assert(seconds(a + b) =~= seconds(a) + seconds(b));
    assert(firsts(seq![(x, y)]) =~= seq![x]);
    assert(seconds(seq![(x, y)]) =~= seq![y]);
}

/// `sum` adds up every item: a single item sums to itself, and the sum over two runs of
/// items is the sum of their sums.
pub proof fn law_sum_pieces(s: Seq<u64>, t: Seq<u64>, x: u64)
    ensures
        sum_of(s + t) == sum_of(s) + sum_of(t),
        sum_of(seq![x]) == x,
{
    law_chain_sum(s, t);
    assert(seq![x].drop_last() =~= Seq::<u64>::empty());
    assert(sum_of(Seq::<u64>::empty()) == 0);
    assert(sum_of(seq![x]) == sum_of(Seq::<u64>::empty()) + x);
}

/// `product` multiplies every item in: a single item is its own product, and the
/// product over two runs of items is the product of their products.
pub proof fn law_product_pieces(s: Seq<u64>, t: Seq<u64>, x: u64)
    ensures
        product_of(s + t) == product_of(s) * product_of(t),
        product_of(seq![x]) == x,
    decreases t.len(),
{
    assert(seq![x].drop_last() =~= Seq::<u64>::empty());
    assert(product_of(Seq::<u64>::empty()) == 1);
    assert(product_of(seq![x]) == product_of(Seq::<u64>::empty()) * x);
    if t.len() == 0 {
        assert(s + t =~= s);
    } else {
        law_product_pieces(s, t.drop_last(), x);
        assert((s + t).drop_last() =~= s + t.drop_last());
        assert((s + t).last() == t.last());
        let p = product_of(s);
        let q = product_of(t.drop_last());
        let z = t.last() as int;
        assert(p * q * z == p * (q * z)) by (nonlinear_arith);
    }
}

/// `rev` turns the order around: a single item stays, and two runs of items come back
/// reversed, the second first.
pub proof fn law_rev_pieces<A>(a: Seq<A>, b: Seq<A>, x: A)
    ensures
        reverse_of(a + b) == reverse_of(b) + reverse_of(a),
        reverse_of(seq![x]) == seq![x],
{
    assert(reverse_of(a + b) =~= reverse_of(b) + reverse_of(a));
    assert(reverse_of(seq![x]) =~= seq![x]);
}

/// `take(n)` gives the first `n` items (all of them when there are fewer), and
/// `skip(n)` the items after them.
pub proof fn law_take_skip_items<A>(s: Seq<A>, n: int)
    requires
        0 <= n,
    ensures
        take_of(s, n).len() == if n <= s.len() { n } else { s.len() as int },
        forall|i: int| 0 <= i < take_of(s, n).len() ==> #[trigger] take_of(s, n)[i] == s[i],
        skip_of(s, n).len() == if n <= s.len() { s.len() - n } else { 0 },
        forall|i: int| 0 <= i < skip_of(s, n).len() ==> #[trigger] skip_of(s, n)[i] == s[n + i],
{
}

/// `zip` pairs items place by place, as far as the shorter side goes.
pub proof fn law_zip_items<A, B>(s: Seq<A>, t: Seq<B>)
    ensures
        zip_of(s, t).len() == if s.len() <= t.len() { s.len() } else { t.len() },
        forall|i: int| 0 <= i < zip_of(s, t).len() ==> (#[trigger] zip_of(s, t)[i]).0 == s[i] && zip_of(s, t)[i].1 == t[i],
        firsts(zip_of(s, t)) == s.take(zip_of(s, t).len() as int),
        seconds(zip_of(s, t)) == t.take(zip_of(s, t).len() as int),
{
    assert(firsts(zip_of(s, t)) =~= s.take(zip_of(s, t).len() as int));
    assert(seconds(zip_of(s, t)) =~= t.take(zip_of(s, t).len() as int));
}

/// `interleave` alternates: while both sides last, place `2 * i` holds item `i` of the
/// first side and place `2 * i + 1` item `i` of the second.
pub proof fn law_interleave_items<A>(s: Seq<A>, t: Seq<A>)
    requires
        s.len() == t.len() || s.len() == t.len() + 1,
    ensures
        interleave_of(s, t).len() == s.len() + t.len(),
        forall|i: int| 0 <= i < s.len() ==> #[trigger] interleave_of(s, t)[2 * i] == s[i],
        forall|i: int| 0 <= i < t.len() ==> #[trigger] interleave_of(s, t)[2 * i + 1] == t[i],
    decreases s.len() + t.len(),
{
    if s.len() > 0 {
        let s2 = s.drop_first();
        law_interleave_items(t, s2);
        let r = interleave_of(s, t);
        let r2 = interleave_of(t, s2);
        assert(r == seq![s[0]] + r2);
        assert forall|i: int| 0 <= i < s.len() implies #[trigger] interleave_of(s, t)[2 * i] == s[i] by {
            if i > 0 {
                assert(r[2 * i] == r2[2 * (i - 1) + 1]);
                assert(s2[i - 1] == s[i]);
            }
        }
        assert forall|i: int| 0 <= i < t.len() implies #[trigger] interleave_of(s, t)[2 * i + 1] == t[i] by {
            assert(r[2 * i + 1] == r2[2 * i]);
        }
    }
}

/// `interleave` with an empty side gives the other side as it is.
pub proof fn law_interleave_empty_side<A>(s: Seq<A>)
    ensures
        interleave_of(s, Seq::<A>::empty()) == s,
        interleave_of(Seq::<A>::empty(), s) == s,
{
    lemma_interleave_empty(s);
}

/// `interleave_shortest` is `interleave` of the parts that alternate until the side
/// whose turn it is runs out: at most one more item of the first side than of the
/// second, and no more of the second than of the first.
pub proof fn law_interleave_shortest_parts<A>(s: Seq<A>, t: Seq<A>)
    ensures
        interleave_shortest_of(s, t) == interleave_of(
            s.take(if s.len() <= t.len() + 1 { s.len() as int } else { t.len() + 1int }),
            t.take(if t.len() <= s.len() { t.len() as int } else { s.len() as int }),
        ),
    decreases s.len() + t.len(),
{
    let m: int = if s.len() <= t.len() + 1 { s.len() as int } else { t.len() + 1int };
    let k: int = if t.len() <= s.len() { t.len() as int } else { s.len() as int };
    if s.len() == 0 {
        assert(s.take(m) =~= Seq::<A>::empty());
        assert(t.take(k) =~= Seq::<A>::empty());
        lemma_interleave_empty(Seq::<A>::empty());
    } else {
        let s2 = s.drop_first();
        law_interleave_shortest_parts(t, s2);
        assert(s.take(m).drop_first() =~= s2.take(m - 1));
        assert(s.take(m)[0] == s[0]);
        assert(interleave_of(s.take(m), t.take(k)) == seq![s[0]] + interleave_of(t.take(k), s.take(m).drop_first()));
    }
}

/// Where the leading run of `Some` items of `s` ends: the first `None`, or the end.
proof fn lemma_run_end_exists<A>(s: Seq<Option<A>>) -> (p: int)
    ensures
        is_run_end(s, p),
    decreases s.len(),
{
    if s.len() == 0 {
        0
    } else if s[0] is None {
        0
    } else {
        let q = lemma_run_end_exists(s.drop_first());
        assert forall|i: int| 0 <= i < q + 1 implies (#[trigger] s[i]) is Some by {
            if i > 0 {
                assert(s[i] == s.drop_first()[i - 1]);
            }
        }
        if q + 1 < s.len() {
            assert(s[q + 1] == s.drop_first()[q]);
        }
        q + 1
    }
}

/// `while_some`, serially, gives the values of the `Some` items up to the first `None`:
/// nothing on no items, nothing from a leading `None`, and a leading `Some(x)` gives
/// `x` followed by what the rest gives.
pub proof fn law_while_some_pieces<A>(x: A, t: Seq<Option<A>>)
    ensures
        leading_somes(Seq::<Option<A>>::empty()) == Seq::<A>::empty(),
        leading_somes(seq![None::<A>] + t) == Seq::<A>::empty(),
        leading_somes(seq![Some(x)] + t) == seq![x] + leading_somes(t),
{
    let e = Seq::<Option<A>>::empty();
    assert(is_run_end(e, 0));
    lemma_leading_somes(e, 0);
    assert(e.take(0) =~= e);
    let n = seq![None::<A>] + t;
    assert(n[0] is None);
    assert(is_run_end(n, 0));
    lemma_leading_somes(n, 0);
    assert(n.take(0) =~= e);
    let p = lemma_run_end_exists(t);
    lemma_leading_somes(t, p);
    let u = seq![Some(x)] + t;
    assert forall|i: int| 0 <= i < p + 1 implies (#[trigger] u[i]) is Some by {
        if i > 0 {
            assert(u[i] == t[i - 1]);
        }
    }
    if p + 1 < u.len() {
        assert(u[p + 1] == t[p]);
    }
    assert(is_run_end(u, p + 1));
    lemma_leading_somes(u, p + 1);
    assert(u.take(p + 1) =~= seq![Some(x)] + t.take(p));
    law_somes_pieces(seq![Some(x)], t.take(p), x);
}

/// `map` answers item by item, in order: on a single item, an answer of `f` on it; on
/// two runs of items, the answers on each, one after the other.
pub proof fn law_mapped_pieces<A, B, F: Fn(A) -> B>(f: F, a: Seq<A>, ra: Seq<B>, b: Seq<A>, rb: Seq<B>, x: A, y: B)
    ensures
        mapped(f, a, ra) && mapped(f, b, rb) ==> mapped(f, a + b, ra + rb),
        mapped(f, a + b, ra + rb) && ra.len() == a.len() ==> mapped(f, a, ra) && mapped(f, b, rb),
        mapped(f, seq![x], seq![y]) <==> call_ensures(f, (x,), y),
{
    if mapped(f, a, ra) && mapped(f, b, rb) {
        assert forall|i: int| 0 <= i < (a + b).len() implies call_ensures(f, ((a + b)[i],), #[trigger] (ra + rb)[i]) by {
            if i >= a.len() {
                assert((a + b)[i] == b[i - a.len()]);
                assert((ra + rb)[i] == rb[i - a.len()]);
            }
        }
    }
    if mapped(f, a + b, ra + rb) && ra.len() == a.len() {
        assert forall|i: int| 0 <= i < a.len() implies call_ensures(f, (a[i],), #[trigger] ra[i]) by {
            assert((a + b)[i] == a[i] && (ra + rb)[i] == ra[i]);
        }
        assert forall|i: int| 0 <= i < b.len() implies call_ensures(f, (b[i],), #[trigger] rb[i]) by {
            assert((a + b)[a.len() + i] == b[i] && (ra + rb)[a.len() + i] == rb[i]);
        }
    }
    if call_ensures(f, (x,), y) {
        assert(seq![y][0] == y);
    }
    if mapped(f, seq![x], seq![y]) {
        assert(call_ensures(f, (seq![x][0],), seq![y][0]));
    }
}

/// Answers on references, as `filter`, `partition` and the searches get them, come item
/// by item, in order: on a single item, an answer of `f` on it; on two runs of items,
/// the answers on each, one after the other.
pub proof fn law_ref_mapped_pieces<A, B, F: Fn(&A) -> B>(f: F, a: Seq<A>, ra: Seq<B>, b: Seq<A>, rb: Seq<B>, x: A, y: B)
    ensures
        ref_mapped(f, a, ra) && ref_mapped(f, b, rb) ==> ref_mapped(f, a + b, ra + rb),
        ref_mapped(f, a + b, ra + rb) && ra.len() == a.len() ==> ref_mapped(f, a, ra) && ref_mapped(f, b, rb),
        ref_mapped(f, seq![x], seq![y]) <==> call_ensures(f, (&x,), y),
{
    if ref_mapped(f, a, ra) && ref_mapped(f, b, rb) {
        assert forall|i: int| 0 <= i < (a + b).len() implies call_ensures(f, (&(a + b)[i],), #[trigger] (ra + rb)[i]) by {
            if i >= a.len() {
                assert((a + b)[i] == b[i - a.len()]);
                assert((ra + rb)[i] == rb[i - a.len()]);
            }
        }
    }
    if ref_mapped(f, a + b, ra + rb) && ra.len() == a.len() {
        assert forall|i: int| 0 <= i < a.len() implies call_ensures(f, (&a[i],), #[trigger] ra[i]) by {
            assert((a + b)[i] == a[i] && (ra + rb)[i] == ra[i]);
        }
        assert forall|i: int| 0 <= i < b.len() implies call_ensures(f, (&b[i],), #[trigger] rb[i]) by {
            assert((a + b)[a.len() + i] == b[i] && (ra + rb)[a.len() + i] == rb[i]);
        }
    }
    if call_ensures(f, (&x,), y) {
        assert(seq![y][0] == y);
    }
    if ref_mapped(f, seq![x], seq![y]) {
        assert(call_ensures(f, (&seq![x][0],), seq![y][0]));
    }
}

/// Folding goes through the items in order: folding a single item is one call of `op`
/// from the start, and folding two runs of items is folding the second from what
/// folding the first gave.
pub proof fn law_folds_pieces<T, A, F: Fn(T, A) -> T>(op: F, init: T, a: Seq<A>, b: Seq<A>, mid: T, v: T, x: A)
    ensures
        folds(op, init, a, mid) && folds(op, mid, b, v) ==> folds(op, init, a + b, v),
        folds(op, init, seq![x], v) <==> call_ensures(op, (init, x), v),
        folds(op, init, Seq::<A>::empty(), v) <==> v == init,
{
    if folds(op, init, a, mid) && folds(op, mid, b, v) {
        let t1 = choose|accs: Seq<T>| #[trigger] fold_trace(op, init, a, accs) && accs.last() == mid;
        let t2 = choose|accs: Seq<T>| #[trigger] fold_trace(op, mid, b, accs) && accs.last() == v;
        let t = t1 + t2.drop_first();
        let c = a + b;
        assert forall|k: int| 0 <= k < c.len() implies call_ensures(op, (t[k], c[k]), #[trigger] t[k + 1]) by {
            if k < a.len() {
                assert(t[k] == t1[k] && c[k] == a[k]);
                if k + 1 < t1.len() {
                    assert(t[k + 1] == t1[k + 1]);
                }
            } else {
                let j = k - a.len();
                assert(c[k] == b[j]);
                assert(t[k + 1] == t2[j + 1]);
                if j == 0 {
                    assert(t[k] == t1.last());
                } else {
                    assert(t[k] == t2[j]);
                }
            }
        }
        if b.len() == 0 {
            assert(t.last() == t1.last());
        } else {
            assert(t.last() == t2.last());
        }
        assert(fold_trace(op, init, c, t));
    }
    let one = seq![x];
    if call_ensures(op, (init, x), v) {
        assert(fold_trace(op, init, one, seq![init, v]));
    }
    if folds(op, init, one, v) {
        let t = choose|accs: Seq<T>| #[trigger] fold_trace(op, init, one, accs) && accs.last() == v;
        assert(call_ensures(op, (t[0], one[0]), t[1]));
    }
    assert(fold_trace(op, init, Seq::<A>::empty(), seq![init]));
}

/// `flat_map` gives the answered vectors' items one after another: a single vector gives
/// its items, and two runs of vectors give theirs one after the other.
pub proof fn law_concat_vecs_pieces<A>(a: Seq<Vec<A>>, b: Seq<Vec<A>>, v: Vec<A>)
    ensures
        concat_vecs(a + b) == concat_vecs(a) + concat_vecs(b),
        concat_vecs(seq![v]) == v@,
{
    let f = |w: Vec<A>| w@;
    assert((a + b).map_values(f) =~= a.map_values(f) + b.map_values(f));
    lemma_concat_append(a.map_values(f), b.map_values(f));
    assert(seq![v].map_values(f) =~= seq![v@]);
    lemma_single_concat(v@);
}

/// `intersperse` puts a separator between the items in order: a single item is left
/// alone, and the result for two runs of items is the result for the first, a
/// separator, and the result for the second.
pub proof fn law_intersperse_pieces<A: Clone>(s: Seq<A>, r: Seq<A>, t: Seq<A>, q: Seq<A>, sep: A, c: A, x: A)
    ensures
        interspersed(seq![x], sep, seq![x]),
        interspersed(s, sep, r) && interspersed(t, sep, q) && s.len() > 0 && t.len() > 0
            && reached_by_clones(sep, c) ==> interspersed(s + t, sep, r + seq![c] + q),
{
    assert(seq![x][0] == x);
    if interspersed(s, sep, r) && interspersed(t, sep, q) && s.len() > 0 && t.len() > 0 && reached_by_clones(sep, c) {
        let u = s + t;
        let w = r + seq![c] + q;
        let n = s.len();
        assert(w.len() == 2 * u.len() - 1);
        assert forall|i: int| 0 <= i < u.len() implies #[trigger] w[2 * i] == u[i] by {
            if i < n {
                assert(w[2 * i] == r[2 * i]);
            } else {
                assert(w[2 * i] == q[2 * (i - n)]);
                assert(u[i] == t[i - n]);
            }
        }
        assert forall|i: int| 0 <= i < u.len() - 1 implies reached_by_clones(sep, #[trigger] w[2 * i + 1]) by {
            if i < n - 1 {
                assert(w[2 * i + 1] == r[2 * i + 1]);
            } else if i == n - 1 {
                assert(w[2 * i + 1] == c);
            } else {
                assert(w[2 * i + 1] == q[2 * (i - n) + 1]);
            }
        }
    }
}

} // verus!
