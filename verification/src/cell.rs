//! Cells and the value trait they are generic over.

use crate::weights::WeightMap;
use vstd::prelude::*;

verus! {

/// Which parts of the two overlapping weight sets remain in the cell after a
/// merge.
///
/// Classify each value as cell-only (in the cell, not the parameter), overlap
/// (in both), or parameter-only. Each operation keeps a fixed choice of these
/// three groups:
///
/// ```text
///                 | Union | Modification | Xor | Subtraction | Replacement | Intersection | ExclusiveReplacement | Null |
/// cell-only       |   x   |      x       |  x  |      x      |             |              |                      |      |
/// overlap         |   x   |      x       |     |             |      x      |      x       |                      |      |
/// parameter-only  |   x   |              |  x  |             |      x      |              |          x           |      |
/// ```
///
/// Overlap entries that are kept have their two weights combined by the
/// chosen [`Function`].
#[derive(Clone, Copy, Debug)]
pub enum Operation {
    /// Keep the cell-only, overlap and parameter-only values.
    Union,
    /// Keep the cell-only and overlap values.
    Modification,
    /// Keep the cell-only and parameter-only values.
    Xor,
    /// Keep only the cell-only values.
    Subtraction,
    /// Keep the overlap and parameter-only values.
    Replacement,
    /// Keep only the overlap values.
    Intersection,
    /// Keep only the parameter-only values.
    ExclusiveReplacement,
    /// Keep nothing.
    Null,
}

/// How the two weights of an overlap value are combined. The first weight is
/// the one already in the cell, the second the one from the parameter.
#[derive(Clone, Copy, Debug)]
pub enum Function {
    /// The smaller of the two weights.
    Min,
    /// The larger of the two weights.
    Max,
    /// The weight from the cell.
    A,
    /// The weight from the parameter.
    B,
    /// Unimplemented; a merge must not be asked for it.
    Multiply,
    /// The sum of the two weights.
    Add,
    /// The cell's weight minus the parameter's, clamped at zero.
    Subtract,
}

/// A value a cell can hold.
///
/// Values are compared, copied freely and used as keys of weight maps, so the
/// trait asks for cheap copying and a decided equality test.
pub trait CellValue: Copy + Sized {
    /// Whether the two values are equal.
    fn same(&self, other: &Self) -> (r: bool)
        ensures
            r == (*self == *other),
    ;
}

impl CellValue for usize {
    fn same(&self, other: &Self) -> (r: bool)
        ensures
            r == (*self == *other),
    {
        *self == *other
    }
}

impl CellValue for u64 {
    fn same(&self, other: &Self) -> (r: bool)
        ensures
            r == (*self == *other),
    {
        *self == *other
    }
}

/// One position of a layout: either already fixed to a single value, or an
/// uncollapsed superposition of weighted candidate values.
///
/// An uncollapsed cell with no candidates left is the contradiction state; it
/// is legal here, and it is the solver's business to backtrack out of it.
pub enum Cell<V: CellValue> {
    /// The cell is fixed to exactly one value.
    Collapsed(V),
    /// The cell is undecided and holds weighted candidate values.
    Uncollapsed(WeightMap<V>),
}

impl<V: CellValue> Cell<V> {
    /// The candidate weights of the cell: empty when collapsed.
    pub open spec fn weights(&self) -> Map<V, nat> {
        match self {
            Cell::Collapsed(_) => Map::empty(),
            Cell::Uncollapsed(m) => m@,
        }
    }

    /// The sum of the candidate weights: zero when collapsed.
    pub open spec fn weights_total(&self) -> nat {
        match self {
            Cell::Collapsed(_) => 0,
            Cell::Uncollapsed(m) => m.spec_total(),
        }
    }

    /// The fixed-point Shannon entropy of the cell: zero when collapsed.
    pub open spec fn spec_entropy(&self) -> nat {
        match self {
            Cell::Collapsed(_) => 0,
            Cell::Uncollapsed(m) => m.spec_entropy(),
        }
    }

    /// The value of a collapsed cell.
    pub open spec fn spec_value(&self) -> V
        recommends
            self is Collapsed,
    {
        self->Collapsed_0
    }

    /// Whether the two cells describe the same state: equal when collapsed,
    /// and carrying the same candidate weights and entropy when not.
    ///
    /// A duplicated uncollapsed cell is equivalent to, though not the very
    /// same structure as, its original.
    pub open spec fn equiv(&self, other: &Cell<V>) -> bool {
        &&& (self is Collapsed <==> other is Collapsed)
        &&& (self is Collapsed ==> *other == *self)
        &&& self.weights() == other.weights()
        &&& self.weights_total() == other.weights_total()
        &&& self.spec_entropy() == other.spec_entropy()
    }

    /// Whether the cell is collapsed.
    pub fn is_collapsed(&self) -> (r: bool)
        ensures
            r == (self is Collapsed),
    {
        match self {
            Cell::Collapsed(_) => true,
            Cell::Uncollapsed(_) => false,
        }
    }

    /// The fixed-point Shannon entropy of the cell, in units of 1/65536 bit.
    ///
    /// A collapsed cell has entropy exactly zero; so do an empty
    /// superposition and one with a single candidate left.
    pub fn entropy(&self) -> (r: u64)
        ensures
            r as nat == self.spec_entropy(),
            r < 0x400000,
            self is Collapsed ==> r == 0,
    {
        match self {
            Cell::Collapsed(_) => 0,
            Cell::Uncollapsed(m) => m.entropy(),
        }
    }

    /// Fix the cell to the given value, whatever state it was in.
    ///
    /// The answer says whether the value was already there: true when the
    /// cell was collapsed to this very value or the value was among the
    /// uncollapsed candidates, false otherwise. The cell is overwritten
    /// either way; the answer is advisory.
    pub fn collapse(&mut self, value: V) -> (r: bool)
        ensures
            *final(self) == Cell::<V>::Collapsed(value),
            r == if *old(self) is Collapsed {
                old(self).spec_value() == value
            } else {
                old(self).weights().contains_key(value)
            },
    {
        let contained = match &*self {
            Cell::Collapsed(old_value) => old_value.same(&value),
            Cell::Uncollapsed(values) => values.contains_key(&value),
        };
        *self = Cell::Collapsed(value);
        contained
    }

    /// The value of the cell, if it is collapsed.
    pub fn get_value(&self) -> (r: Option<V>)
        ensures
            match r {
                Some(v) => self is Collapsed && v == self.spec_value(),
                None => !(self is Collapsed),
            },
    {
        match self {
            Cell::Collapsed(value) => Some(*value),
            Cell::Uncollapsed(_) => None,
        }
    }

    /// A copy of the candidate weights of the cell: empty when collapsed.
    pub fn get_possibilities(&self) -> (r: WeightMap<V>)
        ensures
            r@ == self.weights(),
            r.spec_total() == self.weights_total(),
            r.spec_entropy() == self.spec_entropy() || self is Collapsed,
    {
        match self {
            Cell::Collapsed(_) => WeightMap::new(),
            Cell::Uncollapsed(values) => values.duplicate(),
        }
    }

    /// Make the cell an uncollapsed superposition of the given weights,
    /// whatever state it was in.
    pub fn set_possibilities(&mut self, possibilities: WeightMap<V>)
        ensures
            *final(self) == Cell::<V>::Uncollapsed(possibilities),
    {
        *self = Cell::Uncollapsed(possibilities);
    }

    /// If uncollapsed, raise the weight of the candidate by one, inserting
    /// it when absent; collapsed cells are left untouched.
    pub fn add_possibility(&mut self, possibility: &V)
        requires
            old(self).weights_total() + 1 <= usize::MAX,
        ensures
            *old(self) is Collapsed ==> *final(self) == *old(self),
            *old(self) is Uncollapsed ==> *final(self) is Uncollapsed && final(self).weights()
                == crate::weights::spec_add_weight(old(self).weights(), *possibility, 1)
                && final(self).weights_total() == old(self).weights_total() + 1,
    {
        match self {
            Cell::Collapsed(_) => (),
            Cell::Uncollapsed(values) => values.add(*possibility),
        }
    }

    /// If uncollapsed, raise the weight of the candidate by `count`,
    /// inserting it when absent and `count > 0`; collapsed cells are left
    /// untouched.
    pub fn add_possibility_count(&mut self, possibility: &V, count: usize)
        requires
            old(self).weights_total() + count <= usize::MAX,
        ensures
            *old(self) is Collapsed ==> *final(self) == *old(self),
            *old(self) is Uncollapsed ==> *final(self) is Uncollapsed && final(self).weights()
                == crate::weights::spec_add_weight(old(self).weights(), *possibility, count as nat)
                && final(self).weights_total() == old(self).weights_total() + count,
    {
        match self {
            Cell::Collapsed(_) => (),
            Cell::Uncollapsed(values) => values.add_count(*possibility, count),
        }
    }

    /// If uncollapsed, raise the weights of all given candidates, inserting
    /// absent ones; collapsed cells are left untouched.
    pub fn add_possibilities(&mut self, possibilities: &WeightMap<V>)
        requires
            old(self).weights_total() + possibilities.spec_total() <= usize::MAX,
        ensures
            *old(self) is Collapsed ==> *final(self) == *old(self),
            *old(self) is Uncollapsed ==> *final(self) is Uncollapsed && final(self).weights()
                == crate::weights::spec_add_maps(old(self).weights(), possibilities@)
                && final(self).weights_total() == old(self).weights_total()
                + possibilities.spec_total(),
    {
        match self {
            Cell::Collapsed(_) => (),
            Cell::Uncollapsed(values) => values.add_all(possibilities),
        }
    }

    /// If uncollapsed, take the candidate out of the superposition outright;
    /// collapsed cells are left untouched.
    pub fn remove_possibility(&mut self, possibility: &V)
        ensures
            *old(self) is Collapsed ==> *final(self) == *old(self),
            *old(self) is Uncollapsed ==> *final(self) is Uncollapsed && final(self).weights()
                == old(self).weights().remove(*possibility) && final(self).weights_total()
                <= old(self).weights_total(),
    {
        match self {
            Cell::Collapsed(_) => (),
            Cell::Uncollapsed(values) => values.remove(possibility),
        }
    }

    /// If uncollapsed, lower the weight of the candidate by `count`,
    /// saturating at zero and dropping the entry when its weight reaches
    /// zero; collapsed cells are left untouched.
    pub fn remove_possibility_count(&mut self, possibility: &V, count: usize)
        ensures
            *old(self) is Collapsed ==> *final(self) == *old(self),
            *old(self) is Uncollapsed ==> *final(self) is Uncollapsed && final(self).weights()
                == crate::weights::spec_remove_weight(
                old(self).weights(),
                *possibility,
                count as nat,
            ) && final(self).weights_total() <= old(self).weights_total(),
    {
        match self {
            Cell::Collapsed(_) => (),
            Cell::Uncollapsed(values) => values.remove_count(possibility, count),
        }
    }

    /// If uncollapsed, lower the weights of all given candidates, saturating
    /// at zero; collapsed cells are left untouched.
    pub fn remove_possibilities(&mut self, possibilities: &WeightMap<V>)
        ensures
            *old(self) is Collapsed ==> *final(self) == *old(self),
            *old(self) is Uncollapsed ==> *final(self) is Uncollapsed && final(self).weights()
                == crate::weights::spec_sub_maps(old(self).weights(), possibilities@)
                && final(self).weights_total() <= old(self).weights_total(),
    {
        match self {
            Cell::Collapsed(_) => (),
            Cell::Uncollapsed(values) => values.remove_all(possibilities),
        }
    }

    /// If uncollapsed, empty the superposition outright — the contradiction
    /// state, which makes the surrounding search branch fail; collapsed
    /// cells are left untouched.
    pub fn clear(&mut self)
        ensures
            *old(self) is Collapsed ==> *final(self) == *old(self),
            *old(self) is Uncollapsed ==> *final(self) is Uncollapsed && final(self).weights()
                == Map::<V, nat>::empty() && final(self).weights_total() == 0,
    {
        match self {
            Cell::Collapsed(_) => (),
            Cell::Uncollapsed(values) => {
                *values = WeightMap::new();
            },
        }
    }

    /// If uncollapsed, merge the parameter weights into the superposition
    /// per the [`Operation`] and [`Function`] tables; collapsed cells are
    /// left untouched. `Function::Multiply` is unimplemented and must not be
    /// asked for.
    pub fn merge_cell_possibilities(
        &mut self,
        op: Operation,
        func: Function,
        weights: &WeightMap<V>,
    )
        requires
            !(func is Multiply),
            crate::weights::spec_merge_grows(op, func) ==> old(self).weights_total()
                + weights.spec_total() <= usize::MAX,
        ensures
            *old(self) is Collapsed ==> *final(self) == *old(self),
            *old(self) is Uncollapsed ==> *final(self) is Uncollapsed && final(self).weights()
                == crate::weights::spec_merge(op, func, old(self).weights(), weights@)
                && final(self).weights_total() <= old(self).weights_total()
                + weights.spec_total(),
    {
        match self {
            Cell::Collapsed(_) => (),
            Cell::Uncollapsed(values) => values.merge(op, func, weights),
        }
    }

    /// A cell equivalent to this one: equal when collapsed, an identical
    /// copy of the candidate weights when not.
    pub fn duplicate(&self) -> (r: Cell<V>)
        ensures
            r.equiv(self),
    {
        match self {
            Cell::Collapsed(value) => Cell::Collapsed(*value),
            Cell::Uncollapsed(values) => Cell::Uncollapsed(values.duplicate()),
        }
    }
}

/// A superposition reports exactly the weights it was given: what
/// [`Cell::set_possibilities`] stores, [`Cell::get_possibilities`] returns.
pub proof fn lemma_possibilities_round_trip<V: CellValue>(m: WeightMap<V>, cell: Cell<V>)
    requires
        cell == Cell::<V>::Uncollapsed(m),
    ensures
        cell.weights() == m@,
{
}

} // verus!
