//! Weighted random draws without replacement.

use crate::cell::CellValue;
use crate::rng::random_below;
use crate::weights::{
    all_pos, as_map, lemma_as_map_index, lemma_as_map_swap_remove, lemma_seq_total_take_le,
    lemma_weight_le_total, seq_total, uniq_keys, WeightMap,
};
use vstd::prelude::*;

verus! {

/// Draws the values of a weight map one by one, without replacement, each
/// draw favoring the remaining values in proportion to their weights.
///
/// The pool is finite and not refillable: after as many draws as the map had
/// values, nothing is left. Which value each draw picks is random; what is
/// certain is that every draw comes from the remaining pool and leaves the
/// pool without it.
pub struct WeightedIterator<T: CellValue> {
    items: Vec<(T, usize)>,
    total_sum: usize,
}

impl<T: CellValue> WeightedIterator<T> {
    /// Distinct values, positive weights, and a correct running total.
    pub closed spec fn wf(&self) -> bool {
        &&& uniq_keys(self.items@)
        &&& all_pos(self.items@)
        &&& self.total_sum as nat == seq_total(self.items@)
    }

    /// The number of values left in the pool.
    pub closed spec fn spec_remaining(&self) -> nat {
        self.items@.len()
    }

    /// A fresh pool drawing from the given weights.
    pub fn new(map: WeightMap<T>) -> (r: Self)
        ensures
            r.wf(),
            r@ == map@,
            r.spec_remaining() == map@.dom().len(),
    {
        let items = map.into_entries();
        let n = items.len();
        let mut total: usize = 0;
        for i in 0..n
            invariant
                n == items@.len(),
                seq_total(items@) <= usize::MAX,
                total as nat == seq_total(items@.take(i as int)),
        {
            proof {
                assert(items@.take(i + 1).drop_last() =~= items@.take(i as int));
                assert(items@.take(i + 1).last() == items@[i as int]);
                lemma_seq_total_take_le(items@, i + 1);
            }
            total = total + items[i].1;
        }
        proof {
            assert(items@.take(n as int) =~= items@);
            crate::weights::lemma_as_map_len(items@);
        }
        WeightedIterator { items, total_sum: total }
    }

    /// Draw one value from the pool, or nothing if the pool is empty.
    ///
    /// Every remaining value can be drawn; the draw is removed from the
    /// pool, weight and all.
    pub fn next(&mut self) -> (r: Option<T>)
        requires
            old(self).wf(),
        ensures
            final(self).wf(),
            match r {
                None => old(self)@ == Map::<T, nat>::empty() && *final(self) == *old(self),
                Some(v) => {
                    &&& old(self)@.contains_key(v)
                    &&& final(self)@ == old(self)@.remove(v)
                    &&& final(self).spec_remaining() == old(self).spec_remaining() - 1
                },
            },
    {
        let n = self.items.len();
        if n == 0 {
            proof {
                assert(self@ =~= Map::<T, nat>::empty());
            }
            return None;
        }
        proof {
            lemma_weight_le_total(self.items@, 0);
        }
        let selection = random_below(self.total_sum);
        let mut cumulation: usize = 0;
        for i in 0..n
            invariant
                *self == *old(self),
                n == self.items@.len(),
                n >= 1,
                uniq_keys(self.items@),
                all_pos(self.items@),
                self.total_sum as nat == seq_total(self.items@),
                selection < self.total_sum,
                cumulation as nat == seq_total(self.items@.take(i as int)),
                cumulation < selection || (i == 0 && selection == 0),
        {
            proof {
                assert(self.items@.take(i + 1).drop_last() =~= self.items@.take(i as int));
                assert(self.items@.take(i + 1).last() == self.items@[i as int]);
                lemma_seq_total_take_le(self.items@, i + 1);
            }
            let (item, chance) = self.items[i];
            cumulation = cumulation + chance;
            if cumulation >= selection {
                proof {
                    lemma_as_map_index(self.items@, i as int);
                    lemma_as_map_swap_remove(self.items@, i as int);
                    lemma_weight_le_total(self.items@, i as int);
                }
                let mut items: Vec<(T, usize)> = Vec::new();
                core::mem::swap(&mut self.items, &mut items);
                items.swap_remove(i);
                self.items = items;
                self.total_sum = self.total_sum - chance;
                return Some(item);
            }
        }
        proof {
            assert(self.items@.take(n as int) =~= self.items@);
            assert(false);
        }
        unreached()
    }
}

impl<T: CellValue> View for WeightedIterator<T> {
    type V = Map<T, nat>;

    closed spec fn view(&self) -> Map<T, nat> {
        as_map(self.items@)
    }
}

} // verus!
