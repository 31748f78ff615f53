//! Lexicographic comparison of `u64` items with another sequence, and the least and the
//! greatest item under a comparator.
use vstd::prelude::*;
use std::cmp::Ordering;
use crate::cond::CondIterator;
use crate::lemmas::{lemma_first_difference_at, lemma_no_first_difference};
use crate::model::{
    agree_upto, at, first_difference, lex_order, is_total_order, order_of, is_first_least,
    is_last_greatest, picks_first_least, picks_last_greatest, pair_callable_on, best_step,
    is_best_trace, picked_in_order,
};
use crate::lemmas::lemma_take_all;
use crate::par::{par_eq, par_ge, par_gt, par_le, par_lex_order, par_lt, par_max_by, par_min_by, par_ne, par_partial_lex_order};

verus! {

/// `cmp` answers `Equal` exactly when the items are those of the other side.
pub proof fn law_cmp_equal_iff_same(a: Seq<u64>, b: Seq<u64>)
    ensures
        (lex_order(a, b) == Ordering::Equal) <==> a == b,
{
    lemma_no_first_difference(a, b);
    if a == b {
        assert(forall|k: int| 0 <= k < a.len() && k < b.len() ==> a[k] == b[k]);
    }
    if lex_order(a, b) == Ordering::Equal {
        assert(!exists|j: int| #[trigger] first_difference(a, b, j));
        assert(a =~= b);
    }
}

/// Two sequences have at most one first difference.
proof fn lemma_first_difference_unique(a: Seq<u64>, b: Seq<u64>, i: int, j: int)
    requires
        first_difference(a, b, i),
        first_difference(a, b, j),
    ensures
        i == j,
{
    if i < j {
        assert(a[i] == b[i]);
    } else if j < i {
        assert(a[j] == b[j]);
    }
}

/// Swapping the two sides of `cmp` turns `Less` into `Greater` and back, and keeps
/// `Equal`.
pub proof fn law_cmp_swaps(a: Seq<u64>, b: Seq<u64>)
    ensures
        (lex_order(a, b) == Ordering::Less) <==> (lex_order(b, a) == Ordering::Greater),
        (lex_order(a, b) == Ordering::Equal) <==> (lex_order(b, a) == Ordering::Equal),
{
    if exists|i: int| #[trigger] first_difference(a, b, i) {
        let i = choose|i: int| #[trigger] first_difference(a, b, i);
        assert(first_difference(b, a, i));
        let j = choose|j: int| #[trigger] first_difference(b, a, j);
        assert(first_difference(a, b, j));
        lemma_first_difference_unique(a, b, i, j);
    } else {
        if exists|j: int| #[trigger] first_difference(b, a, j) {
            let j = choose|j: int| #[trigger] first_difference(b, a, j);
            assert(first_difference(a, b, j));
        }
    }
}

/// A proper prefix comes first: the items against the same items followed by more
/// answer `Less`.
pub proof fn law_cmp_prefix_less(a: Seq<u64>, c: Seq<u64>)
    requires
        c.len() > 0,
    ensures
        lex_order(a, a + c) == Ordering::Less,
{
    let b = a + c;
    if exists|i: int| #[trigger] first_difference(a, b, i) {
        let i = choose|i: int| #[trigger] first_difference(a, b, i);
        assert(b[i] == a[i]);
    }
}

/// The first place where two sequences differ decides: after a common beginning `p`,
/// the one with the smaller item there comes first, whatever follows.
pub proof fn law_cmp_first_difference(p: Seq<u64>, x: u64, y: u64, s: Seq<u64>, t: Seq<u64>)
    requires
        x < y,
    ensures
        lex_order(p + seq![x] + s, p + seq![y] + t) == Ordering::Less,
{
    let a = p + seq![x] + s;
    let b = p + seq![y] + t;
    let n: int = 0int + p.len();
    assert(a[n] == x && b[n] == y);
    assert forall|k: int| 0 <= k < n implies a[k] == b[k] by {
        assert(a[k] == p[k] && b[k] == p[k]);
    }
    assert(first_difference(a, b, n));
    let j = choose|j: int| #[trigger] first_difference(a, b, j);
    lemma_first_difference_unique(a, b, n, j);
}

/// The lexicographic order of `v` and `w`, compared item by item.
fn lex_serial(v: &Vec<u64>, w: &Vec<u64>) -> (r: Ordering)
    ensures
        r == lex_order(v@, w@),
{
    let n = if v.len() <= w.len() { v.len() } else { w.len() };
    let mut i: usize = 0;
    while i < n
        invariant
            n <= v@.len(),
            n <= w@.len(),
            n == v@.len() || n == w@.len(),
            i <= n,
            agree_upto(v@, w@, i),
        decreases n - i,
    {
        if v[i] != w[i] {
            proof { lemma_first_difference_at(v@, w@, i); }
            if v[i] < w[i] {
                return Ordering::Less;
            } else {
                return Ordering::Greater;
            }
        }
        i = i + 1;
    }
    proof { lemma_no_first_difference(v@, w@); }
    if v.len() < w.len() {
        Ordering::Less
    } else if v.len() == w.len() {
        Ordering::Equal
    } else {
        Ordering::Greater
    }
}

impl CondIterator<u64> {
    /// The lexicographic order of the items and `other`.
    pub fn cmp(self, other: Vec<u64>) -> (r: Ordering)
        ensures
            r == lex_order(self@, other@),
    {
        proof { self.lemma_fields(); }
        if self.parallel {
            par_lex_order(self.items, other)
        } else {
            lex_serial(&self.items, &other)
        }
    }

    /// The lexicographic order of the items and `other`; `u64` items always compare.
    pub fn partial_cmp(self, other: Vec<u64>) -> (r: Option<Ordering>)
        ensures
            r == Some(lex_order(self@, other@)),
    {
        proof { self.lemma_fields(); }
        if self.parallel {
            par_partial_lex_order(self.items, other)
        } else {
            Some(lex_serial(&self.items, &other))
        }
    }

    /// Whether the items are those of `other`.
    pub fn eq(self, other: Vec<u64>) -> (r: bool)
        ensures
            r == (self@ == other@),
    {
        proof { self.lemma_fields(); }
        if self.parallel {
            par_eq(self.items, other)
        } else {
            proof { law_cmp_equal_iff_same(self.items@, other@); }
            match lex_serial(&self.items, &other) {
                Ordering::Equal => true,
                _ => false,
            }
        }
    }

    /// Whether the items differ from those of `other`.
    pub fn ne(self, other: Vec<u64>) -> (r: bool)
        ensures
            r == (self@ != other@),
    {
        proof { self.lemma_fields(); }
        if self.parallel {
            par_ne(self.items, other)
        } else {
            proof { law_cmp_equal_iff_same(self.items@, other@); }
            match lex_serial(&self.items, &other) {
                Ordering::Equal => false,
                _ => true,
            }
        }
    }

    /// Whether the items come lexicographically before `other`.
    pub fn lt(self, other: Vec<u64>) -> (r: bool)
        ensures
            r == (lex_order(self@, other@) == Ordering::Less),
    {
        proof { self.lemma_fields(); }
        if self.parallel {
            par_lt(self.items, other)
        } else {
            match lex_serial(&self.items, &other) {
                Ordering::Less => true,
                _ => false,
            }
        }
    }

    /// Whether the items come lexicographically before `other` or equal it.
    pub fn le(self, other: Vec<u64>) -> (r: bool)
        ensures
            r == (lex_order(self@, other@) != Ordering::Greater),
    {
        proof { self.lemma_fields(); }
        if self.parallel {
            par_le(self.items, other)
        } else {
            match lex_serial(&self.items, &other) {
                Ordering::Greater => false,
                _ => true,
            }
        }
    }

    /// Whether the items come lexicographically after `other`.
    pub fn gt(self, other: Vec<u64>) -> (r: bool)
        ensures
            r == (lex_order(self@, other@) == Ordering::Greater),
    {
        proof { self.lemma_fields(); }
        if self.parallel {
            par_gt(self.items, other)
        } else {
            match lex_serial(&self.items, &other) {
                Ordering::Greater => true,
                _ => false,
            }
        }
    }

    /// Whether the items come lexicographically after `other` or equal it.
    pub fn ge(self, other: Vec<u64>) -> (r: bool)
        ensures
            r == (lex_order(self@, other@) != Ordering::Less),
    {
        proof { self.lemma_fields(); }
        if self.parallel {
            par_ge(self.items, other)
        } else {
            match lex_serial(&self.items, &other) {
                Ordering::Less => false,
                _ => true,
            }
        }
    }
}

impl<T: Send> CondIterator<T> {
    /// An item that is least under the comparator `f`, or `None` when there are none:
    /// when `f` is a total order, the first least item. Serially, for any comparator, the
    /// items are picked in order, the later one replacing the best so far only when `f`
    /// finds the best so far greater.
    pub fn min_by<F: Fn(&T, &T) -> Ordering + Sync + Send>(self, f: F) -> (r: Option<T>)
        requires
            pair_callable_on(f, self@),
        ensures
            r is None <==> self@.len() == 0,
            r matches Some(x) ==> self@.contains(x),
            is_total_order(f) ==> picks_first_least(f, self@, r),
            !self.parallel_mode() ==> picked_in_order(f, self@, true, r),
    {
        proof { self.lemma_fields(); }
        if self.parallel {
            par_min_by(self.items, f)
        } else {
            best_by(self.items, &f, true)
        }
    }

    /// An item that is greatest under the comparator `f`, or `None` when there are none:
    /// when `f` is a total order, the last greatest item. Serially, for any comparator,
    /// the items are picked in order, the later one replacing the best so far unless `f`
    /// finds the best so far greater.
    pub fn max_by<F: Fn(&T, &T) -> Ordering + Sync + Send>(self, f: F) -> (r: Option<T>)
        requires
            pair_callable_on(f, self@),
        ensures
            r is None <==> self@.len() == 0,
            r matches Some(x) ==> self@.contains(x),
            is_total_order(f) ==> picks_last_greatest(f, self@, r),
            !self.parallel_mode() ==> picked_in_order(f, self@, false, r),
    {
        proof { self.lemma_fields(); }
        if self.parallel {
            par_max_by(self.items, f)
        } else {
            best_by(self.items, &f, false)
        }
    }
}

/// An item is never greater than itself under a total order.
proof fn lemma_not_greater_self<T, F: Fn(&T, &T) -> Ordering>(f: F, a: T)
    requires
        is_total_order(f),
    ensures
        order_of(f, a, a) != Ordering::Greater,
        order_of(f, a, a) != Ordering::Less,
{
    assert((order_of(f, a, a) == Ordering::Less) == (order_of(f, a, a) == Ordering::Greater));
}

/// The first least item of `s.take(i + 1)`, from that of `s.take(i)` at `bj` and the
/// answer of `f` on it and `s[i]`.
proof fn lemma_least_step<T, F: Fn(&T, &T) -> Ordering>(f: F, s: Seq<T>, i: int, bj: int)
    requires
        is_total_order(f),
        0 <= bj < i < s.len(),
        is_first_least(f, s.take(i), bj),
    ensures
        order_of(f, s[bj], s[i]) == Ordering::Greater ==> is_first_least(f, s.take(i + 1), i),
        order_of(f, s[bj], s[i]) != Ordering::Greater ==> is_first_least(f, s.take(i + 1), bj),
{
    let p = s.take(i);
    let t = s.take(i + 1);
    let b = s[bj];
    let x = s[i];
    assert(p[bj] == b);
    assert(t[i] == x);
    lemma_not_greater_self(f, x);
    lemma_not_greater_self(f, b);
    if order_of(f, b, x) == Ordering::Greater {
        assert(order_of(f, x, b) == Ordering::Less);
        assert forall|k: int| 0 <= k < t.len() implies order_of(f, t[i], #[trigger] t[k]) != Ordering::Greater by {
            if k < i {
                assert(t[k] == p[k]);
                assert(order_of(f, p[bj], p[k]) != Ordering::Greater);
            }
        }
        assert forall|k: int| 0 <= k < i implies order_of(f, #[trigger] t[k], t[i]) == Ordering::Greater by {
            assert(t[k] == p[k]);
            assert(order_of(f, p[bj], p[k]) != Ordering::Greater);
            if order_of(f, t[k], x) != Ordering::Greater {
                assert(order_of(f, b, x) != Ordering::Greater);
            }
        }
    } else {
        assert forall|k: int| 0 <= k < t.len() implies order_of(f, t[bj], #[trigger] t[k]) != Ordering::Greater by {
            if k < i {
                assert(t[k] == p[k]);
                assert(order_of(f, p[bj], p[k]) != Ordering::Greater);
            }
        }
        assert forall|k: int| 0 <= k < bj implies order_of(f, #[trigger] t[k], t[bj]) == Ordering::Greater by {
            assert(t[k] == p[k]);
            assert(order_of(f, p[k], p[bj]) == Ordering::Greater);
        }
    }
}

/// The last greatest item of `s.take(i + 1)`, from that of `s.take(i)` at `bj` and the
/// answer of `f` on it and `s[i]`.
proof fn lemma_greatest_step<T, F: Fn(&T, &T) -> Ordering>(f: F, s: Seq<T>, i: int, bj: int)
    requires
        is_total_order(f),
        0 <= bj < i < s.len(),
        is_last_greatest(f, s.take(i), bj),
    ensures
        order_of(f, s[bj], s[i]) == Ordering::Greater ==> is_last_greatest(f, s.take(i + 1), bj),
        order_of(f, s[bj], s[i]) != Ordering::Greater ==> is_last_greatest(f, s.take(i + 1), i),
{
    let p = s.take(i);
    let t = s.take(i + 1);
    let b = s[bj];
    let x = s[i];
    assert(p[bj] == b);
    assert(t[i] == x);
    lemma_not_greater_self(f, x);
    lemma_not_greater_self(f, b);
    if order_of(f, b, x) == Ordering::Greater {
        assert forall|k: int| 0 <= k < t.len() implies order_of(f, t[bj], #[trigger] t[k]) != Ordering::Less by {
            if k < i {
                assert(t[k] == p[k]);
                assert(order_of(f, p[bj], p[k]) != Ordering::Less);
            }
        }
        assert forall|k: int| bj < k < t.len() implies order_of(f, t[bj], #[trigger] t[k]) == Ordering::Greater by {
            if k < i {
                assert(t[k] == p[k]);
                assert(order_of(f, p[bj], p[k]) == Ordering::Greater);
            }
        }
    } else {
        assert forall|k: int| 0 <= k < t.len() implies order_of(f, t[i], #[trigger] t[k]) != Ordering::Less by {
            if k < i {
                assert(t[k] == p[k]);
                assert(order_of(f, p[bj], p[k]) != Ordering::Less);
                assert(order_of(f, p[k], p[bj]) != Ordering::Greater);
                assert(order_of(f, p[k], x) != Ordering::Greater);
            }
        }
    }
}

/// Reduces `v` in order keeping, of the best so far `b` and the next item `x`, `x` when
/// `f(b, x)` is `Greater` (for the least), or `x` unless `f(b, x)` is `Greater` (for the
/// greatest), as std's `min_by` and `max_by` do.
fn best_by<T, F: Fn(&T, &T) -> Ordering>(v: Vec<T>, f: &F, least: bool) -> (r: Option<T>)
    requires
        pair_callable_on(*f, v@),
    ensures
        picked_in_order(*f, v@, least, r),
        r is None <==> v@.len() == 0,
        r matches Some(x) ==> v@.contains(x),
        is_total_order(*f) ==> (r matches Some(x) ==> exists|j: int|
            (if least { is_first_least(*f, v@, j) } else { is_last_greatest(*f, v@, j) }) && x == #[trigger] v@[j]),
{
    let ghost s = v@;
    let mut best: Option<T> = None;
    let ghost mut bj: int = 0;
    let ghost mut bs: Seq<T> = Seq::empty();
    for x in it: v.into_iter()
        invariant
            it.seq() == s,
            pair_callable_on(*f, s),
            is_best_trace(*f, s.take(it.index()), least, bs),
            best matches Some(b) ==> b == bs.last(),
            best is None <==> it.index() == 0,
            best matches Some(b) ==> 0 <= bj < it.index() && s[bj] == b,
            is_total_order(*f) && it.index() > 0 ==> (if least {
                is_first_least(*f, s.take(it.index()), bj)
            } else {
                is_last_greatest(*f, s.take(it.index()), bj)
            }),
    {
        let ghost i = it.index();
        assert(x == s[i]);
        match best {
            None => {
                proof {
                    bj = i;
                    if is_total_order(*f) {
                        lemma_not_greater_self(*f, x);
                        let t = s.take(1);
                        assert(t[0] == x);
                        assert(t.len() == 1);
                    }
                    bs = bs.push(x);
                    assert(is_best_trace(*f, s.take(i + 1), least, bs));
                }
                best = Some(x);
            },
            Some(b) => {
                assert(b == s[bj]);
                let o = f(&b, &x);
                proof {
                    if is_total_order(*f) {
                        assert(o == order_of(*f, b, x));
                        if least {
                            lemma_least_step(*f, s, i, bj);
                        } else {
                            lemma_greatest_step(*f, s, i, bj);
                        }
                    }
                }
                let keep_new = match o {
                    Ordering::Greater => least,
                    _ => !least,
                };
                let ghost old_bs = bs;
                if keep_new {
                    proof { bj = i; }
                    best = Some(x);
                } else {
                    best = Some(b);
                }
                proof {
                    let nb = best->0;
                    assert(best_step(*f, b, x, nb, least));
                    bs = bs.push(nb);
                    let t = s.take(i + 1);
                    assert forall|k: int| 0 < k < t.len() implies best_step(*f, bs[k - 1], t[k], #[trigger] bs[k], least) by {
                        if k < i {
                            assert(bs[k] == old_bs[k] && bs[k - 1] == old_bs[k - 1]);
                            assert(t[k] == s.take(i)[k]);
                        } else {
                            assert(bs[k - 1] == old_bs.last());
                            assert(t[k] == x);
                        }
                    }
                    assert(is_best_trace(*f, t, least, bs));
                }
            },
        }
    }
    proof { lemma_take_all(s); }
    best
}

} // verus!
