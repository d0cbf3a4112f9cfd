//! A finite mapping from candidate values to strictly positive integer
//! weights, stored as an association list with distinct keys.
//!
//! This is the weighted-set representation used by uncollapsed cells. Its
//! mathematical model is a `Map<V, nat>`; every weight is at least 1 and the
//! sum of all weights fits in a `usize`.

use crate::cell::{CellValue, Function, Operation};
use crate::entropy::{log2_fixed, log2_q16, lemma_pw2_adds, lemma_log2_q16_pow2, pw2};
use vstd::prelude::*;

verus! {

/// The weighted logarithm sum of the entries: each weight times its own
/// fixed-point base-2 logarithm.
pub open spec fn weighted_log_sum<V>(s: Seq<(V, usize)>) -> nat
    decreases s.len(),
{
    if s.len() == 0 {
        0
    } else {
        weighted_log_sum(s.drop_last()) + (s.last().1 as nat) * log2_q16(s.last().1 as nat)
    }
}

/// The fixed-point Shannon entropy of a weight distribution with the given
/// total and weighted logarithm sum:
/// `(total * log2(total) - sum(w * log2(w))) / total`, in units of
/// 1/65536 bit.
pub open spec fn entropy_from(total: nat, wsum: nat) -> nat {
    if total == 0 {
        0
    } else if total * log2_q16(total) <= wsum {
        0
    } else {
        ((total * log2_q16(total) - wsum) / total as int) as nat
    }
}

/// The fixed-point Shannon entropy of an association list of weights.
pub open spec fn seq_entropy<V>(s: Seq<(V, usize)>) -> nat {
    entropy_from(seq_total(s), weighted_log_sum(s))
}

/// The map described by an association list: later entries shadow earlier
/// ones, though a well-formed list has distinct keys.
pub open spec fn as_map<V>(s: Seq<(V, usize)>) -> Map<V, nat>
    decreases s.len(),
{
    if s.len() == 0 {
        Map::empty()
    } else {
        as_map(s.drop_last()).insert(s.last().0, s.last().1 as nat)
    }
}

/// All keys of the association list are pairwise distinct.
pub open spec fn uniq_keys<V>(s: Seq<(V, usize)>) -> bool {
    forall|i: int, j: int| 0 <= i < j < s.len() ==> s[i].0 != s[j].0
}

/// Every weight in the association list is strictly positive.
pub open spec fn all_pos<V>(s: Seq<(V, usize)>) -> bool {
    forall|i: int| 0 <= i < s.len() ==> #[trigger] s[i].1 >= 1
}

/// The sum of the weights of the association list.
pub open spec fn seq_total<V>(s: Seq<(V, usize)>) -> nat
    decreases s.len(),
{
    if s.len() == 0 {
        0
    } else {
        seq_total(s.drop_last()) + s.last().1 as nat
    }
}

/// A key is in the map exactly when some entry of the list carries it.
pub proof fn lemma_as_map_keys<V>(s: Seq<(V, usize)>, v: V)
    ensures
        as_map(s).contains_key(v) <==> exists|i: int| 0 <= i < s.len() && s[i].0 == v,
    decreases s.len(),
{
    if s.len() > 0 {
        lemma_as_map_keys(s.drop_last(), v);
        if s.last().0 == v {
            assert(s[s.len() - 1].0 == v);
        } else if as_map(s).contains_key(v) {
            let i = choose|i: int| 0 <= i < s.drop_last().len() && s.drop_last()[i].0 == v;
            assert(s[i].0 == v);
        } else if exists|i: int| 0 <= i < s.len() && s[i].0 == v {
            let i = choose|i: int| 0 <= i < s.len() && s[i].0 == v;
            assert(s.drop_last()[i].0 == v);
        }
    }
}

/// In a list with distinct keys, each entry gives its key's weight.
pub proof fn lemma_as_map_index<V>(s: Seq<(V, usize)>, i: int)
    requires
        uniq_keys(s),
        0 <= i < s.len(),
    ensures
        as_map(s).contains_key(s[i].0),
        as_map(s)[s[i].0] == s[i].1 as nat,
    decreases s.len(),
{
    lemma_as_map_keys(s, s[i].0);
    if i < s.len() - 1 {
        assert(s[i].0 != s.last().0);
        assert(s.drop_last()[i] == s[i]);
        lemma_as_map_index(s.drop_last(), i);
    }
}

/// The domain of the described map is finite.
pub proof fn lemma_as_map_finite<V>(s: Seq<(V, usize)>)
    ensures
        as_map(s).dom().finite(),
    decreases s.len(),
{
    if s.len() > 0 {
        lemma_as_map_finite(s.drop_last());
    }
}

/// With distinct keys, the map has exactly one key per entry.
pub proof fn lemma_as_map_len<V>(s: Seq<(V, usize)>)
    requires
        uniq_keys(s),
    ensures
        as_map(s).dom().finite(),
        as_map(s).dom().len() == s.len(),
    decreases s.len(),
{
    lemma_as_map_finite(s);
    if s.len() > 0 {
        lemma_as_map_len(s.drop_last());
        lemma_as_map_keys(s.drop_last(), s.last().0);
        assert(forall|i: int| 0 <= i < s.drop_last().len() ==> s[i] == s.drop_last()[i]);
        assert(!as_map(s.drop_last()).contains_key(s.last().0));
        vstd::set::axiom_set_insert_len(as_map(s.drop_last()).dom(), s.last().0);
        assert(as_map(s).dom() =~= as_map(s.drop_last()).dom().insert(s.last().0));
    }
}

/// In a well-formed list, every value the map carries has positive weight.
pub proof fn lemma_as_map_pos<V>(s: Seq<(V, usize)>)
    requires
        uniq_keys(s),
        all_pos(s),
    ensures
        forall|k: V| #[trigger] as_map(s).contains_key(k) ==> as_map(s)[k] >= 1,
{
    assert forall|k: V| #[trigger] as_map(s).contains_key(k) implies as_map(s)[k] >= 1 by {
        lemma_as_map_keys(s, k);
        let i = choose|i: int| 0 <= i < s.len() && s[i].0 == k;
        lemma_as_map_index(s, i);
    }
}

/// Each single weight is bounded by the total.
pub proof fn lemma_weight_le_total<V>(s: Seq<(V, usize)>, i: int)
    requires
        0 <= i < s.len(),
    ensures
        s[i].1 <= seq_total(s),
    decreases s.len(),
{
    if i < s.len() - 1 {
        assert(s.drop_last()[i] == s[i]);
        lemma_weight_le_total(s.drop_last(), i);
    }
}

/// Replacing the entry at `i` by one with the same key re-points that key.
pub proof fn lemma_as_map_update<V>(s: Seq<(V, usize)>, i: int, w: usize)
    requires
        uniq_keys(s),
        0 <= i < s.len(),
    ensures
        as_map(s.update(i, (s[i].0, w))) =~= as_map(s).insert(s[i].0, w as nat),
        seq_total(s.update(i, (s[i].0, w))) == seq_total(s) - s[i].1 + w,
    decreases s.len(),
{
    let t = s.update(i, (s[i].0, w));
    if i == s.len() - 1 {
        assert(t.drop_last() =~= s.drop_last());
        assert(t.last() == (s[i].0, w));
    } else {
        assert(t.drop_last() =~= s.drop_last().update(i, (s[i].0, w)));
        assert(s.drop_last()[i] == s[i]);
        lemma_as_map_update(s.drop_last(), i, w);
        assert(t.last() == s.last());
        assert(s[i].0 != s.last().0);
        assert(as_map(t) =~= as_map(s).insert(s[i].0, w as nat));
    }
}

/// Appending an entry with a fresh key inserts it into the map.
pub proof fn lemma_as_map_push<V>(s: Seq<(V, usize)>, v: V, w: usize)
    ensures
        as_map(s.push((v, w))) == as_map(s).insert(v, w as nat),
        seq_total(s.push((v, w))) == seq_total(s) + w,
{
    assert(s.push((v, w)).drop_last() =~= s);
    assert(s.push((v, w)).last() == (v, w));
}

/// Replacing the entry at `i` adjusts the total by the difference.
pub proof fn lemma_seq_total_update<V>(s: Seq<(V, usize)>, i: int, p: (V, usize))
    requires
        0 <= i < s.len(),
    ensures
        seq_total(s.update(i, p)) == seq_total(s) - s[i].1 + p.1,
    decreases s.len(),
{
    let t = s.update(i, p);
    if i == s.len() - 1 {
        assert(t.drop_last() =~= s.drop_last());
        assert(t.last() == p);
    } else {
        assert(t.drop_last() =~= s.drop_last().update(i, p));
        assert(s.drop_last()[i] == s[i]);
        lemma_seq_total_update(s.drop_last(), i, p);
        assert(t.last() == s.last());
    }
}

/// Removing the entry at `i` by swapping in the last entry takes its key out
/// of the map and its weight out of the total.
pub proof fn lemma_as_map_swap_remove<V>(s: Seq<(V, usize)>, i: int)
    requires
        uniq_keys(s),
        0 <= i < s.len(),
    ensures
        as_map(s.update(i, s.last()).drop_last()) == as_map(s).remove(s[i].0),
        uniq_keys(s.update(i, s.last()).drop_last()),
        all_pos(s) ==> all_pos(s.update(i, s.last()).drop_last()),
        seq_total(s.update(i, s.last()).drop_last()) == seq_total(s) - s[i].1,
{
    let t = s.update(i, s.last()).drop_last();
    let v = s[i].0;
    if i == s.len() - 1 {
        assert(t =~= s.drop_last());
        lemma_as_map_keys(t, v);
        assert(!as_map(t).contains_key(v));
        assert(as_map(t) =~= as_map(s).remove(v));
    } else {
        // Each entry of `t` is an entry of `s` at an index other than `i`.
        let src = |j: int| if j == i { s.len() - 1 } else { j };
        assert forall|j: int| 0 <= j < t.len() implies t[j] == s[src(j)] by {}
        assert(uniq_keys(t)) by {
            assert forall|a: int, b: int| 0 <= a < b < t.len() implies t[a].0 != t[b].0 by {
                assert(t[a] == s[src(a)]);
                assert(t[b] == s[src(b)]);
                assert(src(a) != src(b));
            }
        }
        assert forall|k: V| #[trigger] as_map(t).contains_key(k) == as_map(s).remove(
            v,
        ).contains_key(k) && (as_map(t).contains_key(k) ==> as_map(t)[k] == as_map(s).remove(v)[k])
            by {
            lemma_as_map_keys(t, k);
            lemma_as_map_keys(s, k);
            if as_map(t).contains_key(k) {
                let j = choose|j: int| 0 <= j < t.len() && t[j].0 == k;
                assert(t[j] == s[src(j)]);
                assert(k != v);
                lemma_as_map_index(t, j);
                lemma_as_map_index(s, src(j));
            } else if as_map(s).remove(v).contains_key(k) {
                let j = choose|j: int| 0 <= j < s.len() && s[j].0 == k;
                assert(j != i);
                if j == s.len() - 1 {
                    assert(t[i].0 == k);
                } else {
                    assert(t[j].0 == k);
                }
                assert(as_map(t).contains_key(k));
            }
        }
        assert(as_map(t) =~= as_map(s).remove(v));
        lemma_seq_total_update(s, i, s.last());
        assert(s.update(i, s.last()).last() == s.last());
        assert(seq_total(s.update(i, s.last())) == seq_total(t) + s.last().1);
    }
}

/// The map with the weights of `v` raised by `n` (inserted when absent and
/// `n > 0`).
pub open spec fn spec_add_weight<V>(m: Map<V, nat>, v: V, n: nat) -> Map<V, nat> {
    let w0: nat = if m.contains_key(v) {
        m[v]
    } else {
        0
    };
    if w0 + n == 0 {
        m
    } else {
        m.insert(v, (w0 + n) as nat)
    }
}

/// The map with the weight of `v` lowered by `n`, saturating at zero; an
/// entry whose weight reaches zero is removed.
pub open spec fn spec_remove_weight<V>(m: Map<V, nat>, v: V, n: nat) -> Map<V, nat> {
    if !m.contains_key(v) {
        m
    } else if m[v] <= n {
        m.remove(v)
    } else {
        m.insert(v, (m[v] - n) as nat)
    }
}

/// The weight a map gives a value: zero when the value is absent.
pub open spec fn weight_of<K>(m: Map<K, nat>, k: K) -> nat {
    if m.contains_key(k) {
        m[k]
    } else {
        0
    }
}

/// The pointwise sum of two weight maps.
pub open spec fn spec_add_maps<V>(m: Map<V, nat>, w: Map<V, nat>) -> Map<V, nat> {
    Map::new(
        |v: V| m.contains_key(v) || w.contains_key(v),
        |v: V|
            ((if m.contains_key(v) {
                m[v]
            } else {
                0
            }) + (if w.contains_key(v) {
                w[v]
            } else {
                0
            })) as nat,
    )
}

/// The pointwise saturating difference of two weight maps; entries whose
/// weight reaches zero are removed.
pub open spec fn spec_sub_maps<V>(m: Map<V, nat>, w: Map<V, nat>) -> Map<V, nat> {
    Map::new(
        |v: V|
            m.contains_key(v) && (if w.contains_key(v) {
                w[v]
            } else {
                0
            }) < m[v],
        |v: V|
            (m[v] - (if w.contains_key(v) {
                w[v]
            } else {
                0
            })) as nat,
    )
}

/// A finite mapping from values to strictly positive weights.
///
/// An uncollapsed cell holds one of these; the weight of a value, divided by
/// the total of all weights, is that value's chance of being chosen.
pub struct WeightMap<V: CellValue> {
    entries: Vec<(V, usize)>,
}

impl<V: CellValue> WeightMap<V> {
    /// Distinct keys, positive weights, and a total that fits in `usize`.
    #[verifier::type_invariant]
    pub closed spec fn wf(&self) -> bool {
        &&& uniq_keys(self.entries@)
        &&& all_pos(self.entries@)
        &&& seq_total(self.entries@) <= usize::MAX
    }

    /// The total of all weights in the map.
    pub closed spec fn spec_total(&self) -> nat {
        seq_total(self.entries@)
    }

    /// A well-formed map's total fits in a `usize`.
    pub proof fn lemma_total_bound(&self)
        requires
            self.wf(),
        ensures
            self.spec_total() <= usize::MAX,
    {
    }

    /// An empty map of weights.
    pub fn new() -> (r: Self)
        ensures
            r@ == Map::<V, nat>::empty(),
            r.spec_total() == 0,
    {
        WeightMap { entries: Vec::new() }
    }

    /// The position of the entry carrying `v`, if one exists.
    fn index_of(&self, v: &V) -> (r: Option<usize>)
        ensures
            match r {
                Some(i) => i < self.entries@.len() && self.entries@[i as int].0 == *v,
                None => forall|j: int| 0 <= j < self.entries@.len() ==> self.entries@[j].0 != *v,
            },
    {
        let n = self.entries.len();
        for i in 0..n
            invariant
                n == self.entries@.len(),
                forall|j: int| 0 <= j < i ==> self.entries@[j].0 != *v,
        {
            if self.entries[i].0.same(v) {
                return Some(i);
            }
        }
        None
    }

    /// Whether the map carries the value `v`.
    pub fn contains_key(&self, v: &V) -> (r: bool)
        ensures
            r == self@.contains_key(*v),
    {
        proof {
            lemma_as_map_keys(self.entries@, *v);
        }
        self.index_of(v).is_some()
    }

    /// The weight of `v`, if the map carries it.
    pub fn get(&self, v: &V) -> (r: Option<usize>)
        ensures
            match r {
                Some(w) => self@.contains_key(*v) && w as nat == self@[*v],
                None => !self@.contains_key(*v),
            },
    {
        proof {
            use_type_invariant(self);
            lemma_as_map_keys(self.entries@, *v);
        }
        match self.index_of(v) {
            Some(i) => {
                proof {
                    lemma_as_map_index(self.entries@, i as int);
                }
                Some(self.entries[i].1)
            },
            None => None,
        }
    }

    /// The number of distinct values in the map.
    pub fn len(&self) -> (r: usize)
        ensures
            r == self@.dom().len(),
    {
        proof {
            use_type_invariant(self);
            lemma_as_map_len(self.entries@);
        }
        self.entries.len()
    }

    /// Whether the map carries no values at all.
    pub fn is_empty(&self) -> (r: bool)
        ensures
            r == (self@ == Map::<V, nat>::empty()),
    {
        proof {
            use_type_invariant(self);
            lemma_as_map_len(self.entries@);
            if self.entries@.len() == 0 {
                assert(self@ =~= Map::<V, nat>::empty());
            } else {
                lemma_as_map_index(self.entries@, 0);
            }
        }
        self.entries.len() == 0
    }

    /// The sum of all weights in the map.
    pub fn total(&self) -> (r: usize)
        ensures
            r as nat == self.spec_total(),
    {
        proof {
            use_type_invariant(self);
        }
        let n = self.entries.len();
        let mut sum: usize = 0;
        for i in 0..n
            invariant
                n == self.entries@.len(),
                seq_total(self.entries@) <= usize::MAX,
                sum as nat == seq_total(self.entries@.take(i as int)),
                sum <= seq_total(self.entries@),
        {
            proof {
                assert(self.entries@.take(i + 1).drop_last() =~= self.entries@.take(i as int));
                assert(self.entries@.take(i + 1).last() == self.entries@[i as int]);
                lemma_seq_total_take_le(self.entries@, i + 1);
            }
            sum = sum + self.entries[i].1;
        }
        proof {
            assert(self.entries@.take(n as int) =~= self.entries@);
        }
        sum
    }

    /// An identical copy of the map.
    pub fn duplicate(&self) -> (r: Self)
        ensures
            r@ == self@,
            r.spec_total() == self.spec_total(),
            r.spec_entropy() == self.spec_entropy(),
    {
        proof {
            use_type_invariant(self);
        }
        let n = self.entries.len();
        let mut entries: Vec<(V, usize)> = Vec::new();
        for i in 0..n
            invariant
                n == self.entries@.len(),
                entries@ =~= self.entries@.take(i as int),
        {
            let p = self.entries[i];
            entries.push(p);
            proof {
                assert(entries@ =~= self.entries@.take(i + 1));
            }
        }
        proof {
            assert(entries@ =~= self.entries@);
        }
        WeightMap { entries }
    }

    /// Raise the weight of `possibility` by `count`, inserting it when absent
    /// and `count > 0`.
    pub fn add_count(&mut self, possibility: V, count: usize)
        requires
            old(self).spec_total() + count <= usize::MAX,
        ensures
            final(self)@ == spec_add_weight(old(self)@, possibility, count as nat),
            final(self).spec_total() == old(self).spec_total() + count,
    {
        proof {
            use_type_invariant(&*self);
        }
        match self.index_of(&possibility) {
            Some(i) => {
                let w = self.entries[i].1;
                proof {
                    lemma_weight_le_total(self.entries@, i as int);
                    lemma_as_map_index(self.entries@, i as int);
                    lemma_as_map_update(self.entries@, i as int, (w + count) as usize);
                }
                let ghost s = self.entries@;
                let mut es: Vec<(V, usize)> = Vec::new();
                core::mem::swap(&mut self.entries, &mut es);
                es.set(i, (possibility, w + count));
                self.entries = es;
                proof {
                    assert(self.entries@ =~= s.update(i as int, (s[i as int].0, (w + count) as usize)));
                    assert forall|a: int, b: int|
                        0 <= a < b < self.entries@.len() implies self.entries@[a].0
                        != self.entries@[b].0 by {
                        assert(self.entries@[a].0 == s[a].0);
                        assert(self.entries@[b].0 == s[b].0);
                    }
                }
            },
            None => {
                proof {
                    lemma_as_map_keys(self.entries@, possibility);
                    lemma_as_map_push(self.entries@, possibility, count);
                }
                if count > 0 {
                    let ghost s = self.entries@;
                    let mut es: Vec<(V, usize)> = Vec::new();
                    core::mem::swap(&mut self.entries, &mut es);
                    es.push((possibility, count));
                    self.entries = es;
                    proof {
                        assert forall|a: int, b: int|
                            0 <= a < b < self.entries@.len() implies self.entries@[a].0
                            != self.entries@[b].0 by {
                            if b < s.len() {
                                assert(self.entries@[a] == s[a]);
                                assert(self.entries@[b] == s[b]);
                            } else {
                                assert(self.entries@[a] == s[a]);
                                assert(self.entries@[b].0 == possibility);
                            }
                        }
                    }
                }
            },
        }
    }

    /// Raise the weight of `possibility` by one, inserting it when absent.
    pub fn add(&mut self, possibility: V)
        requires
            old(self).spec_total() + 1 <= usize::MAX,
        ensures
            final(self)@ == spec_add_weight(old(self)@, possibility, 1),
            final(self).spec_total() == old(self).spec_total() + 1,
    {
        self.add_count(possibility, 1);
    }

    /// Raise the weights of all values in `other`, inserting absent ones.
    pub fn add_all(&mut self, other: &WeightMap<V>)
        requires
            old(self).spec_total() + other.spec_total() <= usize::MAX,
        ensures
            final(self)@ == spec_add_maps(old(self)@, other@),
            final(self).spec_total() == old(self).spec_total() + other.spec_total(),
    {
        proof {
            use_type_invariant(other);
        }
        let ghost m0 = self@;
        let ghost t0 = self.spec_total();
        let n = other.entries.len();
        for i in 0..n
            invariant
                n == other.entries@.len(),
                uniq_keys(other.entries@),
                all_pos(other.entries@),
                self@ == spec_add_maps(m0, as_map(other.entries@.take(i as int))),
                self.spec_total() == t0 + seq_total(other.entries@.take(i as int)),
                t0 + seq_total(other.entries@) <= usize::MAX,
        {
            let p = other.entries[i];
            proof {
                lemma_seq_total_take_le(other.entries@, i + 1);
                assert(other.entries@.take(i + 1).drop_last() =~= other.entries@.take(i as int));
                assert(other.entries@.take(i + 1).last() == p);
                lemma_as_map_keys(other.entries@.take(i as int), p.0);
                assert(forall|j: int|
                    0 <= j < i ==> other.entries@.take(i as int)[j] == other.entries@[j]);
                assert(!as_map(other.entries@.take(i as int)).contains_key(p.0));
                assert(spec_add_weight(
                    spec_add_maps(m0, as_map(other.entries@.take(i as int))),
                    p.0,
                    p.1 as nat,
                ) =~= spec_add_maps(m0, as_map(other.entries@.take(i + 1))));
            }
            self.add_count(p.0, p.1);
        }
        proof {
            assert(other.entries@.take(n as int) =~= other.entries@);
        }
    }

    /// Take the value `possibility` out of the map outright.
    pub fn remove(&mut self, possibility: &V)
        ensures
            final(self)@ == old(self)@.remove(*possibility),
            final(self).spec_total() == old(self).spec_total() - (if old(self)@.contains_key(
                *possibility,
            ) {
                old(self)@[*possibility]
            } else {
                0
            }),
    {
        proof {
            use_type_invariant(&*self);
        }
        match self.index_of(possibility) {
            Some(i) => {
                proof {
                    lemma_as_map_index(self.entries@, i as int);
                    lemma_as_map_swap_remove(self.entries@, i as int);
                }
                let mut es: Vec<(V, usize)> = Vec::new();
                core::mem::swap(&mut self.entries, &mut es);
                es.swap_remove(i);
                self.entries = es;
            },
            None => {
                proof {
                    lemma_as_map_keys(self.entries@, *possibility);
                    assert(self@ =~= self@.remove(*possibility));
                }
            },
        }
    }

    /// Lower the weight of `possibility` by `count`, saturating at zero; an
    /// entry whose weight reaches zero is removed.
    pub fn remove_count(&mut self, possibility: &V, count: usize)
        ensures
            final(self)@ == spec_remove_weight(old(self)@, *possibility, count as nat),
            final(self).spec_total() <= old(self).spec_total(),
    {
        proof {
            use_type_invariant(&*self);
        }
        match self.index_of(possibility) {
            Some(i) => {
                let w = self.entries[i].1;
                proof {
                    lemma_as_map_index(self.entries@, i as int);
                }
                if w <= count {
                    proof {
                        lemma_as_map_swap_remove(self.entries@, i as int);
                    }
                    let mut es: Vec<(V, usize)> = Vec::new();
                    core::mem::swap(&mut self.entries, &mut es);
                    es.swap_remove(i);
                    self.entries = es;
                } else {
                    proof {
                        lemma_weight_le_total(self.entries@, i as int);
                        lemma_as_map_update(self.entries@, i as int, (w - count) as usize);
                    }
                    let ghost s = self.entries@;
                    let mut es: Vec<(V, usize)> = Vec::new();
                    core::mem::swap(&mut self.entries, &mut es);
                    es.set(i, (*possibility, w - count));
                    self.entries = es;
                    proof {
                        assert(self.entries@ =~= s.update(
                            i as int,
                            (s[i as int].0, (w - count) as usize),
                        ));
                        assert forall|a: int, b: int|
                            0 <= a < b < self.entries@.len() implies self.entries@[a].0
                            != self.entries@[b].0 by {
                            assert(self.entries@[a].0 == s[a].0);
                            assert(self.entries@[b].0 == s[b].0);
                        }
                    }
                }
            },
            None => {
                proof {
                    lemma_as_map_keys(self.entries@, *possibility);
                }
            },
        }
    }

    /// Lower the weights of all values in `other`, saturating at zero.
    pub fn remove_all(&mut self, other: &WeightMap<V>)
        ensures
            final(self)@ == spec_sub_maps(old(self)@, other@),
            final(self).spec_total() <= old(self).spec_total(),
    {
        proof {
            use_type_invariant(other);
            use_type_invariant(&*self);
            lemma_as_map_pos(self.entries@);
            assert(other.entries@.take(0) =~= Seq::<(V, usize)>::empty());
            assert(self@ =~= spec_sub_maps(self@, as_map(other.entries@.take(0))));
        }
        let ghost m0 = self@;
        let ghost t0 = self.spec_total();
        let n = other.entries.len();
        for i in 0..n
            invariant
                n == other.entries@.len(),
                uniq_keys(other.entries@),
                self@ == spec_sub_maps(m0, as_map(other.entries@.take(i as int))),
                self.spec_total() <= t0,
        {
            let p = other.entries[i];
            proof {
                assert(other.entries@.take(i + 1).drop_last() =~= other.entries@.take(i as int));
                assert(other.entries@.take(i + 1).last() == p);
                lemma_as_map_keys(other.entries@.take(i as int), p.0);
                assert(forall|j: int|
                    0 <= j < i ==> other.entries@.take(i as int)[j] == other.entries@[j]);
                assert(!as_map(other.entries@.take(i as int)).contains_key(p.0));
                assert(spec_remove_weight(
                    spec_sub_maps(m0, as_map(other.entries@.take(i as int))),
                    p.0,
                    p.1 as nat,
                ) =~= spec_sub_maps(m0, as_map(other.entries@.take(i + 1))));
            }
            self.remove_count(&p.0, p.1);
        }
        proof {
            assert(other.entries@.take(n as int) =~= other.entries@);
        }
    }

    /// Surrender the map as its list of entries.
    pub fn into_entries(self) -> (r: Vec<(V, usize)>)
        ensures
            uniq_keys(r@),
            all_pos(r@),
            seq_total(r@) == self.spec_total(),
            seq_total(r@) <= usize::MAX,
            as_map(r@) == self@,
    {
        proof {
            use_type_invariant(&self);
        }
        let WeightMap { entries } = self;
        entries
    }
}

/// The total of a prefix never exceeds the total of the whole list.
pub proof fn lemma_seq_total_take_le<V>(s: Seq<(V, usize)>, i: int)
    requires
        0 <= i <= s.len(),
    ensures
        seq_total(s.take(i)) <= seq_total(s),
    decreases s.len() - i,
{
    if i == s.len() {
        assert(s.take(i) =~= s);
    } else {
        lemma_seq_total_take_le(s, i + 1);
        assert(s.take(i + 1).drop_last() =~= s.take(i));
    }
}

/// Raising the weight of a value twice is raising it once by the sum.
pub proof fn lemma_add_weight_compose<V>(m: Map<V, nat>, v: V, a: nat, b: nat)
    ensures
        spec_add_weight(spec_add_weight(m, v, a), v, b) == spec_add_weight(m, v, a + b),
{
    assert(spec_add_weight(spec_add_weight(m, v, a), v, b) =~= spec_add_weight(m, v, a + b));
}

/// Lowering the weight of a value twice is lowering it once by the sum.
pub proof fn lemma_remove_weight_compose<V>(m: Map<V, nat>, v: V, a: nat, b: nat)
    ensures
        spec_remove_weight(spec_remove_weight(m, v, a), v, b) == spec_remove_weight(m, v, a + b),
{
    assert(spec_remove_weight(spec_remove_weight(m, v, a), v, b) =~= spec_remove_weight(
        m,
        v,
        a + b,
    ));
}

/// Whether a value of the given membership category survives the merge
/// operation: `in_cell`/`in_other` say whether the cell and the parameter
/// carry the value.
pub open spec fn spec_keeps(op: Operation, in_cell: bool, in_other: bool) -> bool {
    match op {
        Operation::Union => in_cell || in_other,
        Operation::Modification => in_cell,
        Operation::Xor => (in_cell && !in_other) || (!in_cell && in_other),
        Operation::Subtraction => in_cell && !in_other,
        Operation::Replacement => in_other,
        Operation::Intersection => in_cell && in_other,
        Operation::ExclusiveReplacement => !in_cell && in_other,
        Operation::Null => false,
    }
}

/// The combined weight of an overlap value: `a` from the cell, `b` from the
/// parameter.
pub open spec fn spec_combine(func: Function, a: nat, b: nat) -> nat {
    match func {
        Function::Min => if a <= b {
            a
        } else {
            b
        },
        Function::Max => if a >= b {
            a
        } else {
            b
        },
        Function::A => a,
        Function::B => b,
        Function::Multiply => 0,
        Function::Add => a + b,
        Function::Subtract => if a >= b {
            (a - b) as nat
        } else {
            0
        },
    }
}

/// The weight a surviving value ends up with: combined for overlap values,
/// otherwise taken from whichever side carries it.
pub open spec fn spec_merge_weight<V>(func: Function, m: Map<V, nat>, w: Map<V, nat>, v: V) -> nat {
    if m.contains_key(v) && w.contains_key(v) {
        spec_combine(func, m[v], w[v])
    } else if m.contains_key(v) {
        m[v]
    } else if w.contains_key(v) {
        w[v]
    } else {
        0
    }
}

/// The merge of the parameter weights `w` into the cell weights `m`: values
/// survive per [`spec_keeps`], weights per [`spec_merge_weight`], and entries
/// whose weight reaches zero are removed.
pub open spec fn spec_merge<V>(op: Operation, func: Function, m: Map<V, nat>, w: Map<
    V,
    nat,
>) -> Map<V, nat> {
    Map::new(
        |v: V|
            spec_keeps(op, m.contains_key(v), w.contains_key(v)) && spec_merge_weight(func, m, w, v)
                > 0,
        |v: V| spec_merge_weight(func, m, w, v),
    )
}

/// Whether the merge can leave the cell with a larger total than it had:
/// either parameter-only values are kept, or kept overlap weights can exceed
/// the cell's own.
pub open spec fn spec_merge_grows(op: Operation, func: Function) -> bool {
    spec_keeps(op, false, true) || (spec_keeps(op, true, true) && (func is Add || func is Max
        || func is B))
}

/// The set of keys of an association list.
pub open spec fn key_set<V>(s: Seq<(V, usize)>) -> Set<V> {
    Set::new(|v: V| exists|i: int| 0 <= i < s.len() && s[i].0 == v)
}

fn keeps(op: Operation, in_cell: bool, in_other: bool) -> (r: bool)
    ensures
        r == spec_keeps(op, in_cell, in_other),
{
    match op {
        Operation::Union => in_cell || in_other,
        Operation::Modification => in_cell,
        Operation::Xor => in_cell != in_other,
        Operation::Subtraction => in_cell && !in_other,
        Operation::Replacement => in_other,
        Operation::Intersection => in_cell && in_other,
        Operation::ExclusiveReplacement => !in_cell && in_other,
        Operation::Null => false,
    }
}

fn merge_possibility(func: Function, a: usize, b: usize) -> (r: usize)
    requires
        !(func is Multiply),
        func is Add ==> a + b <= usize::MAX,
    ensures
        r as nat == spec_combine(func, a as nat, b as nat),
{
    match func {
        Function::Min => if a <= b {
            a
        } else {
            b
        },
        Function::Max => if a >= b {
            a
        } else {
            b
        },
        Function::A => a,
        Function::B => b,
        Function::Multiply => unreached(),
        Function::Add => a + b,
        Function::Subtract => if a >= b {
            a - b
        } else {
            0
        },
    }
}

impl<V: CellValue> WeightMap<V> {
    /// Merge the parameter weights into this map.
    ///
    /// `op` chooses which membership groups survive, `func` how the two
    /// weights of a kept overlap value are combined; entries whose weight
    /// reaches zero are removed. `Function::Multiply` is unimplemented and
    /// must not be asked for.
    pub fn merge(&mut self, op: Operation, func: Function, weights: &WeightMap<V>)
        requires
            !(func is Multiply),
            spec_merge_grows(op, func) ==> old(self).spec_total() + weights.spec_total()
                <= usize::MAX,
        ensures
            final(self)@ == spec_merge(op, func, old(self)@, weights@),
            final(self).spec_total() <= old(self).spec_total() + weights.spec_total(),
    {
        proof {
            use_type_invariant(&*self);
            use_type_invariant(weights);
        }
        let ghost m = self@;
        let ghost w = weights@;
        let ghost target = spec_merge(op, func, m, w);
        let mut cells: Vec<(V, usize)> = Vec::new();
        core::mem::swap(&mut self.entries, &mut cells);
        let ghost cs = cells@;
        let mut scratch = weights.duplicate();
        let mut merged: Vec<(V, usize)> = Vec::new();
        let n = cells.len();
        for i in 0..n
            invariant
                n == cs.len(),
                cells@ == cs,
                uniq_keys(cs),
                all_pos(cs),
                seq_total(cs) <= usize::MAX,
                m == as_map(cs),
                w == weights@,
                target == spec_merge(op, func, m, w),
                !(func is Multiply),
                spec_merge_grows(op, func) ==> seq_total(cs) + weights.spec_total() <= usize::MAX,
                scratch@ == w.remove_keys(key_set(cs.take(i as int))),
                as_map(merged@) == target.restrict(key_set(cs.take(i as int))),
                uniq_keys(merged@),
                all_pos(merged@),
                forall|j: int| 0 <= j < merged@.len() ==> key_set(cs.take(i as int)).contains(
                    #[trigger] merged@[j].0,
                ),
                seq_total(merged@) + scratch.spec_total() <= seq_total(cs.take(i as int))
                    + weights.spec_total(),
                !spec_merge_grows(op, func) ==> seq_total(merged@) <= seq_total(
                    cs.take(i as int),
                ),
        {
            let (v, a) = cells[i];
            proof {
                lemma_as_map_index(cs, i as int);
                lemma_as_map_keys(cs.take(i as int), v);
                assert(forall|j: int| 0 <= j < i ==> cs.take(i as int)[j] == cs[j]);
                assert(!key_set(cs.take(i as int)).contains(v));
                assert(cs.take(i + 1).drop_last() =~= cs.take(i as int));
                assert(cs.take(i + 1).last() == (v, a));
                assert(key_set(cs.take(i + 1)) =~= key_set(cs.take(i as int)).insert(v));
                lemma_seq_total_take_le(cs, i + 1);
            }
            let in_other = match scratch.get(&v) {
                Some(b) => {
                    proof {
                        lemma_weight_le_total(cs, i as int);
                    }
                    scratch.remove(&v);
                    if keeps(op, true, true) {
                        let wgt = merge_possibility(func, a, b);
                        if wgt > 0 {
                            proof {
                                lemma_as_map_push(merged@, v, wgt);
                                lemma_as_map_keys(merged@, v);
                            }
                            merged.push((v, wgt));
                        }
                    }
                    true
                },
                None => {
                    if keeps(op, true, false) {
                        proof {
                            lemma_as_map_push(merged@, v, a);
                            lemma_as_map_keys(merged@, v);
                        }
                        merged.push((v, a));
                    }
                    false
                },
            };
            proof {
                assert(in_other == w.contains_key(v));
                assert(scratch@ =~= w.remove_keys(key_set(cs.take(i + 1))));
                assert(as_map(merged@) =~= target.restrict(key_set(cs.take(i + 1))));
            }
        }
        proof {
            assert(cs.take(n as int) =~= cs);
        }
        if keeps(op, false, true) {
            let extra = scratch.into_entries();
            let ghost es = extra@;
            let ghost base = key_set(cs);
            proof {
                assert(es.take(0) =~= Seq::<(V, usize)>::empty());
                assert(base.union(key_set(es.take(0))) =~= base);
            }
            let k = extra.len();
            for j in 0..k
                invariant
                    k == es.len(),
                    extra@ == es,
                    uniq_keys(es),
                    all_pos(es),
                    as_map(es) == w.remove_keys(base),
                    target == spec_merge(op, func, m, w),
                    m == as_map(cs),
                    base == key_set(cs),
                    spec_keeps(op, false, true),
                    seq_total(es) <= usize::MAX,
                    as_map(merged@) == target.restrict(base.union(key_set(es.take(j as int)))),
                    uniq_keys(merged@),
                    all_pos(merged@),
                    forall|q: int| 0 <= q < merged@.len() ==> base.union(
                        key_set(es.take(j as int)),
                    ).contains(#[trigger] merged@[q].0),
                    seq_total(merged@) + seq_total(es) - seq_total(es.take(j as int)) <= seq_total(
                        cs,
                    ) + weights.spec_total(),
            {
                let (v, b) = extra[j];
                proof {
                    lemma_as_map_index(es, j as int);
                    lemma_as_map_keys(es, v);
                    assert(as_map(es).contains_key(v));
                    assert(!base.contains(v));
                    assert(w.contains_key(v) && w[v] == b as nat);
                    assert(!m.contains_key(v)) by {
                        lemma_as_map_keys(cs, v);
                        if m.contains_key(v) {
                            let q = choose|q: int| 0 <= q < cs.len() && cs[q].0 == v;
                            assert(key_set(cs).contains(v));
                        }
                    }
                    lemma_as_map_keys(es.take(j as int), v);
                    assert(forall|q: int| 0 <= q < j ==> es.take(j as int)[q] == es[q]);
                    assert(!key_set(es.take(j as int)).contains(v));
                    assert(es.take(j + 1).drop_last() =~= es.take(j as int));
                    assert(es.take(j + 1).last() == (v, b));
                    assert(key_set(es.take(j + 1)) =~= key_set(es.take(j as int)).insert(v));
                    lemma_as_map_push(merged@, v, b);
                    lemma_as_map_keys(merged@, v);
                    lemma_seq_total_take_le(es, j + 1);
                }
                merged.push((v, b));
                proof {
                    assert(as_map(merged@) =~= target.restrict(
                        base.union(key_set(es.take(j + 1))),
                    ));
                }
            }
            proof {
                assert(es.take(k as int) =~= es);
                assert forall|v: V| #[trigger] target.contains_key(v) implies base.union(
                    key_set(es),
                ).contains(v) by {
                    if m.contains_key(v) {
                        lemma_as_map_keys(cs, v);
                    } else {
                        assert(w.contains_key(v));
                        lemma_as_map_keys(es, v);
                        assert(as_map(es).contains_key(v)) by {
                            assert(w.remove_keys(base).contains_key(v)) by {
                                lemma_as_map_keys(cs, v);
                            }
                        }
                    }
                }
                assert(as_map(merged@) =~= target);
            }
        } else {
            proof {
                assert forall|v: V| #[trigger] target.contains_key(v) implies key_set(cs).contains(
                    v,
                ) by {
                    assert(spec_keeps(op, m.contains_key(v), w.contains_key(v)));
                    assert(m.contains_key(v));
                    lemma_as_map_keys(cs, v);
                }
                assert(as_map(merged@) =~= target);
            }
        }
        self.entries = merged;
    }
}

impl<V: CellValue> WeightMap<V> {
    /// The fixed-point Shannon entropy of this weight distribution.
    pub closed spec fn spec_entropy(&self) -> nat {
        seq_entropy(self.entries@)
    }

    /// The fixed-point Shannon entropy of this weight distribution, in units
    /// of 1/65536 bit: zero when empty or when a single value remains.
    pub fn entropy(&self) -> (r: u64)
        ensures
            r as nat == self.spec_entropy(),
            r < 0x400000,
            self@ == Map::<V, nat>::empty() ==> r == 0,
    {
        proof {
            use_type_invariant(self);
            if self.entries@.len() == 0 {
                assert(self@ =~= Map::<V, nat>::empty());
            } else {
                lemma_as_map_index(self.entries@, 0);
            }
        }
        let total = self.total();
        if total == 0 {
            return 0;
        }
        let lt = log2_fixed(total);
        let n = self.entries.len();
        let mut wsum: u128 = 0;
        for i in 0..n
            invariant
                n == self.entries@.len(),
                seq_total(self.entries@) <= usize::MAX,
                wsum as nat == weighted_log_sum(self.entries@.take(i as int)),
                wsum as nat <= seq_total(self.entries@.take(i as int)) * 0x400000,
        {
            let (_, wi) = self.entries[i];
            let li = log2_fixed(wi);
            proof {
                assert(self.entries@.take(i + 1).drop_last() =~= self.entries@.take(i as int));
                assert(self.entries@.take(i + 1).last() == self.entries@[i as int]);
                lemma_seq_total_take_le(self.entries@, i + 1);
                assert((wi as nat) * (li as nat) <= (wi as nat) * 0x400000) by (nonlinear_arith)
                    requires
                        (li as nat) <= 0x400000,
                ;
                assert((seq_total(self.entries@.take(i as int)) + wi) * 0x400000 == seq_total(
                    self.entries@.take(i as int),
                ) * 0x400000 + (wi as nat) * 0x400000) by (nonlinear_arith);
                assert(seq_total(self.entries@.take(i + 1)) * 0x400000 <= (usize::MAX as nat)
                    * 0x400000) by (nonlinear_arith)
                    requires
                        seq_total(self.entries@.take(i + 1)) <= usize::MAX as nat,
                ;
            }
            wsum = wsum + (wi as u128) * (li as u128);
        }
        proof {
            assert(self.entries@.take(n as int) =~= self.entries@);
        }
        proof {
            assert((total as nat) * (lt as nat) <= (usize::MAX as nat) * 0x400000)
                by (nonlinear_arith)
                requires
                    (total as nat) <= usize::MAX as nat,
                    (lt as nat) <= 0x400000,
            ;
        }
        let num: u128 = (total as u128) * (lt as u128);
        if num <= wsum {
            0
        } else {
            let r = (num - wsum) / (total as u128);
            proof {
                vstd::arithmetic::div_mod::lemma_div_is_ordered(
                    (num - wsum) as int,
                    num as int,
                    total as int,
                );
                vstd::arithmetic::div_mod::lemma_div_multiples_vanish(
                    lt as int,
                    total as int,
                );
                assert((total as int) * (lt as int) == (total as int) * (lt as int));
            }
            r as u64
        }
    }

    /// For any distribution of `2^j` values carrying the equal weight `2^m`,
    /// the entropy is exactly `j` bits: `65536 * j` in fixed point.
    pub proof fn lemma_entropy_uniform_pow2(&self, j: nat, m: nat)
        requires
            self.wf(),
            self@.dom().len() == pw2(j),
            forall|k: V| #[trigger] self@.contains_key(k) ==> self@[k] == pw2(m),
        ensures
            self.spec_entropy() == 65536 * j,
    {
        let s = self.entries@;
        lemma_as_map_len(s);
        assert forall|i: int| 0 <= i < s.len() implies #[trigger] s[i].1 as nat == pw2(m) by {
            lemma_as_map_index(s, i);
        }
        crate::entropy::lemma_pw2_pos(m);
        crate::entropy::lemma_pw2_pos(j);
        lemma_uniform_sums(s, pw2(m));
        lemma_pw2_adds(j, m);
        lemma_log2_q16_pow2(j + m);
        lemma_log2_q16_pow2(m);
        let total = seq_total(s);
        let wsum = weighted_log_sum(s);
        assert(total == pw2(j) * pw2(m));
        assert(total == pw2(j + m));
        assert(wsum == pw2(j) * (pw2(m) * (65536 * m)));
        assert(total * log2_q16(total) == pw2(j + m) * (65536 * (j + m)));
        assert(pw2(j + m) * (65536 * (j + m)) == pw2(j + m) * (65536 * j) + pw2(j + m) * (65536
            * m)) by (nonlinear_arith);
        assert(pw2(j) * (pw2(m) * (65536 * m)) == pw2(j + m) * (65536 * m)) by (nonlinear_arith)
            requires
                pw2(j + m) == pw2(j) * pw2(m),
        ;
        assert(total * log2_q16(total) - wsum == pw2(j + m) * (65536 * j));
        assert(total >= 1);
        assert(total * log2_q16(total) >= wsum);
        if 65536 * j == 0 {
            assert(j == 0);
            vstd::arithmetic::div_mod::lemma_div_multiples_vanish(0, total as int);
        } else {
            vstd::arithmetic::div_mod::lemma_div_multiples_vanish(
                (65536 * j) as int,
                total as int,
            );
        }
        assert((pw2(j + m) * (65536 * j)) as int / (total as int) == 65536 * j) by {
            assert((total as int) * ((65536 * j) as int) == (pw2(j + m) * (65536 * j)) as int)
                by (nonlinear_arith)
                requires
                    total == pw2(j + m),
            ;
        }
    }
}

/// When every weight equals `w`, the total and the weighted logarithm sum are
/// both proportional to the length.
proof fn lemma_uniform_sums<V>(s: Seq<(V, usize)>, w: nat)
    requires
        forall|i: int| 0 <= i < s.len() ==> #[trigger] s[i].1 as nat == w,
    ensures
        seq_total(s) == s.len() * w,
        weighted_log_sum(s) == s.len() * (w * log2_q16(w)),
    decreases s.len(),
{
    if s.len() == 0 {
    } else {
        lemma_uniform_sums(s.drop_last(), w);
        assert(s.last().1 as nat == w);
        assert(s.len() * w == (s.len() - 1) * w + w) by (nonlinear_arith)
            requires
                s.len() >= 1,
        ;
        assert(s.len() * (w * log2_q16(w)) == (s.len() - 1) * (w * log2_q16(w)) + w * log2_q16(w))
            by (nonlinear_arith)
            requires
                s.len() >= 1,
        ;
    }
}

impl<V: CellValue> WeightMap<V> {
    /// Every weight a well-formed map carries is strictly positive: there
    /// are no zero-weight candidates, only absent ones.
    pub proof fn lemma_weights_positive(&self)
        requires
            self.wf(),
        ensures
            forall|k: V| #[trigger] self@.contains_key(k) ==> self@[k] >= 1,
    {
        lemma_as_map_pos(self.entries@);
    }
}

/// Raising a weight by `n` and then lowering it by `n` restores the map
/// exactly, for any map whose weights are all positive.
pub proof fn lemma_add_remove_round_trip<V>(m: Map<V, nat>, v: V, n: nat)
    requires
        m.contains_key(v) ==> m[v] >= 1,
    ensures
        spec_remove_weight(spec_add_weight(m, v, n), v, n) == m,
{
    assert(spec_remove_weight(spec_add_weight(m, v, n), v, n) =~= m);
}

impl<V: CellValue> View for WeightMap<V> {
    type V = Map<V, nat>;

    closed spec fn view(&self) -> Map<V, nat> {
        as_map(self.entries@)
    }
}

} // verus!
