//! Sums, products, least and greatest items of `u64` items.
use vstd::prelude::*;
use crate::cond::CondIterator;
use crate::lemmas::{lemma_sum_prefix, lemma_take_push};
use crate::model::{max_of, min_of, nonzero_product_of, product_of, running_products_fit, sum_of};
use crate::par::{par_max, par_min, par_product, par_sum};

verus! {

impl CondIterator<u64> {
    /// The sum of the items (which must fit in a `u64`).
    pub fn sum(self) -> (r: u64)
        requires
            sum_of(self@) <= u64::MAX,
        ensures
            r == sum_of(self@),
    {
        proof { self.lemma_fields(); }
        if self.parallel {
            par_sum(self.items)
        } else {
            let ghost s = self@;
            let mut acc: u64 = 0;
            for x in it: self.items.into_iter()
                invariant
                    it.seq() == s,
                    sum_of(s) <= u64::MAX,
                    acc == sum_of(s.take(it.index() as int)),
            {
                let ghost i = it.index() as int;
                proof {
                    lemma_take_push(s, i);
                    assert(s.take(i + 1).drop_last() =~= s.take(i));
                    lemma_sum_prefix(s, i + 1);
                }
                acc = acc + x;
            }
            proof { assert(s.take(s.len() as int) =~= s); }
            acc
        }
    }

    /// The product of the items. In parallel rayon multiplies the items of each piece and
    /// then the pieces' products in some bracketing, so the product of the nonzero items
    /// must fit in a `u64`; serially the running product must fit at every step (it stays
    /// zero once an item is zero).
    pub fn product(self) -> (r: u64)
        requires
            self.parallel_mode() ==> nonzero_product_of(self@) <= u64::MAX,
            !self.parallel_mode() ==> running_products_fit(self@),
        ensures
            r == product_of(self@),
    {
        proof { self.lemma_fields(); }
        if self.parallel {
            par_product(self.items)
        } else {
            let ghost s = self@;
            let mut acc: u64 = 1;
            for x in it: self.items.into_iter()
                invariant
                    it.seq() == s,
                    running_products_fit(s),
                    acc == product_of(s.take(it.index() as int)),
            {
                let ghost i = it.index() as int;
                proof {
                    lemma_take_push(s, i);
                    assert(s.take(i + 1).drop_last() =~= s.take(i));
                    assert(product_of(s.take(i + 1)) <= u64::MAX);
                }
                acc = acc * x;
            }
            proof { assert(s.take(s.len() as int) =~= s); }
            acc
        }
    }

    /// The least item, or `None` when there are none.
    pub fn min(self) -> (r: Option<u64>)
        ensures
            r is None <==> self@.len() == 0,
            r matches Some(x) ==> x == min_of(self@),
    {
        proof { self.lemma_fields(); }
        if self.parallel {
            par_min(self.items)
        } else {
            extreme_serial(self.items, true)
        }
    }

    /// The greatest item, or `None` when there are none.
    pub fn max(self) -> (r: Option<u64>)
        ensures
            r is None <==> self@.len() == 0,
            r matches Some(x) ==> x == max_of(self@),
    {
        proof { self.lemma_fields(); }
        if self.parallel {
            par_max(self.items)
        } else {
            extreme_serial(self.items, false)
        }
    }
}

/// The least item of `v` when `least`, else the greatest; `None` when there are none.
fn extreme_serial(v: Vec<u64>, least: bool) -> (r: Option<u64>)
    ensures
        r is None <==> v@.len() == 0,
        least ==> (r matches Some(x) ==> x == min_of(v@)),
        !least ==> (r matches Some(x) ==> x == max_of(v@)),
{
    let ghost s = v@;
    let mut best: Option<u64> = None;
    for x in it: v.into_iter()
        invariant
            it.seq() == s,
            best is None <==> it.index() == 0,
            least ==> (best matches Some(b) ==> b == min_of(s.take(it.index() as int))),
            !least ==> (best matches Some(b) ==> b == max_of(s.take(it.index() as int))),
    {
        let ghost i = it.index() as int;
        proof {
            lemma_take_push(s, i);
            assert(s.take(i + 1).drop_last() =~= s.take(i));
        }
        best = match best {
            None => Some(x),
            Some(b) => {
                if least {
                    if x < b { Some(x) } else { Some(b) }
                } else {
                    if x > b { Some(x) } else { Some(b) }
                }
            },
        };
    }
    proof { assert(s.take(s.len() as int) =~= s); }
    best
}

} // verus!
