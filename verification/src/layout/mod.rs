//! The layout abstraction: a spatial container of cells keyed by coordinate.

mod coord2d;
pub use coord2d::{Coord2D, Direction};
mod grid;
pub use grid::{detile_pristine, detiled_cell_ok, Grid};

use crate::cell::{Cell, CellValue, Function, Operation};
use crate::weights::{
    spec_add_maps, spec_add_weight, spec_merge, spec_merge_grows, spec_remove_weight,
    spec_sub_maps, WeightMap,
};
use vstd::prelude::*;

verus! {

/// How many times a coordinate occurs in a list of coordinates.
pub open spec fn count_of<C>(s: Seq<C>, c: C) -> nat
    decreases s.len(),
{
    if s.len() == 0 {
        0
    } else {
        count_of(s.drop_last(), c) + (if s.last() == c {
            1nat
        } else {
            0nat
        })
    }
}

/// The occurrence count over a prefix one longer grows at matches.
pub proof fn lemma_count_of_take_step<C>(s: Seq<C>, j: int, c: C)
    requires
        0 <= j < s.len(),
    ensures
        count_of(s.take(j + 1), c) == count_of(s.take(j), c) + (if s[j] == c {
            1nat
        } else {
            0nat
        }),
{
    assert(s.take(j + 1).drop_last() =~= s.take(j));
    assert(s.take(j + 1).last() == s[j]);
}

/// A prefix never holds more occurrences than the whole list.
pub proof fn lemma_count_of_take_le<C>(s: Seq<C>, j: int, c: C)
    requires
        0 <= j <= s.len(),
    ensures
        count_of(s.take(j), c) <= count_of(s, c),
    decreases s.len() - j,
{
    if j == s.len() {
        assert(s.take(j) =~= s);
    } else {
        lemma_count_of_take_le(s, j + 1, c);
        lemma_count_of_take_step(s, j, c);
    }
}

/// A list contains a coordinate exactly when it counts it at least once.
pub proof fn lemma_count_of_contains<C>(s: Seq<C>, c: C)
    ensures
        s.contains(c) <==> count_of(s, c) >= 1,
    decreases s.len(),
{
    if s.len() > 0 {
        lemma_count_of_contains(s.drop_last(), c);
        if s.last() == c {
            assert(s[s.len() - 1] == c);
        } else if s.contains(c) {
            let i = choose|i: int| 0 <= i < s.len() && s[i] == c;
            assert(s.drop_last()[i] == c);
        } else if s.drop_last().contains(c) {
            let i = choose|i: int| 0 <= i < s.drop_last().len() && s.drop_last()[i] == c;
            assert(s[i] == c);
        }
    }
}

/// A spatial container of [`Cell`]s, addressed by a coordinate type of its
/// own choosing.
///
/// Out-of-bounds coordinates are normal: reads report no cell and the
/// mutating operations leave the layout untouched. None of the operations
/// here changes which cells are collapsed, except `collapse` itself, which
/// only ever turns an uncollapsed cell into a collapsed one.
pub trait Layout<V: CellValue>: Sized {
    /// The coordinate type this layout addresses its cells by.
    type Coordinate: Copy;

    /// The layout's internal consistency.
    spec fn wf(&self) -> bool;

    /// Whether the coordinate lies within the layout.
    spec fn contains_coord(&self, coord: Self::Coordinate) -> bool;

    /// The cell at an in-bounds coordinate.
    spec fn cell_at(&self, coord: Self::Coordinate) -> Cell<V>;

    /// The number of in-bounds coordinates holding an uncollapsed cell.
    spec fn uncollapsed_count(&self) -> nat;

    /// The total number of cells.
    spec fn spec_cell_count(&self) -> nat;

    /// An equivalent copy of the layout: same bounds, and every cell
    /// equivalent to the original's.
    ///
    /// The solver copies the whole layout for each speculative branch.
    fn duplicate(&self) -> (r: Self)
        requires
            self.wf(),
        ensures
            r.wf(),
            r.spec_cell_count() == self.spec_cell_count(),
            r.uncollapsed_count() == self.uncollapsed_count(),
            forall|c: Self::Coordinate| r.contains_coord(c) == self.contains_coord(c),
            forall|c: Self::Coordinate| self.contains_coord(c) ==> (#[trigger] r.cell_at(
                c,
            )).equiv(&self.cell_at(c)),
    ;

    /// A reference to the cell at the coordinate, if it is in bounds.
    fn get_cell(&self, coord: &Self::Coordinate) -> (r: Option<&Cell<V>>)
        requires
            self.wf(),
        ensures
            match r {
                Some(cell) => self.contains_coord(*coord) && *cell == self.cell_at(*coord),
                None => !self.contains_coord(*coord),
            },
    ;

    /// The total number of cells in the layout.
    fn cell_count(&self) -> (r: usize)
        requires
            self.wf(),
        ensures
            r == self.spec_cell_count(),
    ;

    /// The in-bounds coordinates whose cells are still uncollapsed, each
    /// exactly once, in an unspecified order.
    fn candidates(&self) -> (r: Vec<Self::Coordinate>)
        requires
            self.wf(),
        ensures
            r@.len() == self.uncollapsed_count(),
            forall|i: int| 0 <= i < r@.len() ==> self.contains_coord(#[trigger] r@[i])
                && self.cell_at(r@[i]) is Uncollapsed,
            forall|i: int, j: int| 0 <= i < j < r@.len() ==> r@[i] != r@[j],
            forall|c: Self::Coordinate| self.contains_coord(c) && self.cell_at(c) is Uncollapsed
                ==> r@.contains(c),
    ;

    /// Collapse the cell at the coordinate to the given value; out-of-bounds
    /// coordinates are ignored and answered with false.
    ///
    /// As with [`Cell::collapse`], the answer says whether the value was
    /// already present, and the cell is overwritten either way.
    fn collapse(&mut self, coord: &Self::Coordinate, value: V) -> (r: bool)
        requires
            old(self).wf(),
        ensures
            final(self).wf(),
            final(self).spec_cell_count() == old(self).spec_cell_count(),
            forall|c: Self::Coordinate| final(self).contains_coord(c) == old(self).contains_coord(c),
            !old(self).contains_coord(*coord) ==> *final(self) == *old(self) && r == false,
            old(self).contains_coord(*coord) ==> {
                &&& final(self).cell_at(*coord) == Cell::<V>::Collapsed(value)
                &&& r == (if old(self).cell_at(*coord) is Collapsed {
                    old(self).cell_at(*coord).spec_value() == value
                } else {
                    old(self).cell_at(*coord).weights().contains_key(value)
                })
                &&& forall|c: Self::Coordinate|
                    c != *coord && old(self).contains_coord(c) ==> #[trigger] final(self).cell_at(
                        c,
                    ) == old(self).cell_at(c)
                &&& final(self).uncollapsed_count() == old(self).uncollapsed_count() - (if old(self).cell_at(*coord) is Uncollapsed {
                    1int
                } else {
                    0int
                })
            },
    ;

    /// Empty the superposition at the coordinate — the contradiction state;
    /// collapsed cells and out-of-bounds coordinates are left untouched.
    fn clear_cell(&mut self, coord: &Self::Coordinate)
        requires
            old(self).wf(),
        ensures
            final(self).wf(),
            final(self).spec_cell_count() == old(self).spec_cell_count(),
            final(self).uncollapsed_count() == old(self).uncollapsed_count(),
            forall|c: Self::Coordinate| final(self).contains_coord(c) == old(self).contains_coord(c),
            !old(self).contains_coord(*coord) ==> *final(self) == *old(self),
            old(self).contains_coord(*coord) ==> {
                &&& (old(self).cell_at(*coord) is Collapsed ==> final(self).cell_at(*coord) == old(self).cell_at(*coord))
                &&& (old(self).cell_at(*coord) is Uncollapsed ==> final(self).cell_at(
                    *coord,
                ) is Uncollapsed && final(self).cell_at(*coord).weights() == Map::<V, nat>::empty())
                &&& forall|c: Self::Coordinate|
                    c != *coord && old(self).contains_coord(c) ==> #[trigger] final(self).cell_at(
                        c,
                    ) == old(self).cell_at(c)
            },
    ;

    /// Apply [`Cell::add_possibility`] to the cell at the coordinate, if it
    /// is in bounds.
    fn add_cell_possibility(&mut self, coord: &Self::Coordinate, possibility: &V)
        requires
            old(self).wf(),
            old(self).contains_coord(*coord) ==> old(self).cell_at(*coord).weights_total() + 1
                <= usize::MAX,
        ensures
            final(self).wf(),
            final(self).spec_cell_count() == old(self).spec_cell_count(),
            final(self).uncollapsed_count() == old(self).uncollapsed_count(),
            forall|c: Self::Coordinate| final(self).contains_coord(c) == old(self).contains_coord(c),
            !old(self).contains_coord(*coord) ==> *final(self) == *old(self),
            old(self).contains_coord(*coord) ==> {
                &&& (old(self).cell_at(*coord) is Collapsed ==> final(self).cell_at(*coord) == old(self).cell_at(*coord))
                &&& (old(self).cell_at(*coord) is Uncollapsed ==> final(self).cell_at(
                    *coord,
                ) is Uncollapsed && final(self).cell_at(*coord).weights() == spec_add_weight(
                    old(self).cell_at(*coord).weights(),
                    *possibility,
                    1,
                ) && final(self).cell_at(*coord).weights_total() == old(self).cell_at(
                    *coord,
                ).weights_total() + 1)
                &&& forall|c: Self::Coordinate|
                    c != *coord && old(self).contains_coord(c) ==> #[trigger] final(self).cell_at(
                        c,
                    ) == old(self).cell_at(c)
            },
    ;

    /// Apply [`Cell::add_possibility_count`] to the cell at the coordinate,
    /// if it is in bounds.
    fn add_cell_possibility_count(
        &mut self,
        coord: &Self::Coordinate,
        possibility: &V,
        count: usize,
    )
        requires
            old(self).wf(),
            old(self).contains_coord(*coord) ==> old(self).cell_at(*coord).weights_total() + count
                <= usize::MAX,
        ensures
            final(self).wf(),
            final(self).spec_cell_count() == old(self).spec_cell_count(),
            final(self).uncollapsed_count() == old(self).uncollapsed_count(),
            forall|c: Self::Coordinate| final(self).contains_coord(c) == old(self).contains_coord(c),
            !old(self).contains_coord(*coord) ==> *final(self) == *old(self),
            old(self).contains_coord(*coord) ==> {
                &&& (old(self).cell_at(*coord) is Collapsed ==> final(self).cell_at(*coord) == old(self).cell_at(*coord))
                &&& (old(self).cell_at(*coord) is Uncollapsed ==> final(self).cell_at(
                    *coord,
                ) is Uncollapsed && final(self).cell_at(*coord).weights() == spec_add_weight(
                    old(self).cell_at(*coord).weights(),
                    *possibility,
                    count as nat,
                ) && final(self).cell_at(*coord).weights_total() == old(self).cell_at(
                    *coord,
                ).weights_total() + count)
                &&& forall|c: Self::Coordinate|
                    c != *coord && old(self).contains_coord(c) ==> #[trigger] final(self).cell_at(
                        c,
                    ) == old(self).cell_at(c)
            },
    ;

    /// Apply [`Cell::add_possibilities`] to the cell at the coordinate, if
    /// it is in bounds.
    fn add_cell_possibilities(&mut self, coord: &Self::Coordinate, possibilities: &WeightMap<V>)
        requires
            old(self).wf(),
            old(self).contains_coord(*coord) ==> old(self).cell_at(*coord).weights_total()
                + possibilities.spec_total() <= usize::MAX,
        ensures
            final(self).wf(),
            final(self).spec_cell_count() == old(self).spec_cell_count(),
            final(self).uncollapsed_count() == old(self).uncollapsed_count(),
            forall|c: Self::Coordinate| final(self).contains_coord(c) == old(self).contains_coord(c),
            !old(self).contains_coord(*coord) ==> *final(self) == *old(self),
            old(self).contains_coord(*coord) ==> {
                &&& (old(self).cell_at(*coord) is Collapsed ==> final(self).cell_at(*coord) == old(self).cell_at(*coord))
                &&& (old(self).cell_at(*coord) is Uncollapsed ==> final(self).cell_at(
                    *coord,
                ) is Uncollapsed && final(self).cell_at(*coord).weights() == spec_add_maps(
                    old(self).cell_at(*coord).weights(),
                    possibilities@,
                ) && final(self).cell_at(*coord).weights_total() == old(self).cell_at(
                    *coord,
                ).weights_total() + possibilities.spec_total())
                &&& forall|c: Self::Coordinate|
                    c != *coord && old(self).contains_coord(c) ==> #[trigger] final(self).cell_at(
                        c,
                    ) == old(self).cell_at(c)
            },
    ;

    /// Apply [`Cell::remove_possibility`] to the cell at the coordinate, if
    /// it is in bounds.
    fn remove_cell_possibility(&mut self, coord: &Self::Coordinate, possibility: &V)
        requires
            old(self).wf(),
        ensures
            final(self).wf(),
            final(self).spec_cell_count() == old(self).spec_cell_count(),
            final(self).uncollapsed_count() == old(self).uncollapsed_count(),
            forall|c: Self::Coordinate| final(self).contains_coord(c) == old(self).contains_coord(c),
            !old(self).contains_coord(*coord) ==> *final(self) == *old(self),
            old(self).contains_coord(*coord) ==> {
                &&& (old(self).cell_at(*coord) is Collapsed ==> final(self).cell_at(*coord) == old(self).cell_at(*coord))
                &&& (old(self).cell_at(*coord) is Uncollapsed ==> final(self).cell_at(
                    *coord,
                ) is Uncollapsed && final(self).cell_at(*coord).weights() == old(self).cell_at(
                    *coord,
                ).weights().remove(*possibility) && final(self).cell_at(*coord).weights_total()
                    <= old(self).cell_at(*coord).weights_total())
                &&& forall|c: Self::Coordinate|
                    c != *coord && old(self).contains_coord(c) ==> #[trigger] final(self).cell_at(
                        c,
                    ) == old(self).cell_at(c)
            },
    ;

    /// Apply [`Cell::remove_possibility_count`] to the cell at the
    /// coordinate, if it is in bounds.
    fn remove_cell_possibility_count(
        &mut self,
        coord: &Self::Coordinate,
        possibility: &V,
        count: usize,
    )
        requires
            old(self).wf(),
        ensures
            final(self).wf(),
            final(self).spec_cell_count() == old(self).spec_cell_count(),
            final(self).uncollapsed_count() == old(self).uncollapsed_count(),
            forall|c: Self::Coordinate| final(self).contains_coord(c) == old(self).contains_coord(c),
            !old(self).contains_coord(*coord) ==> *final(self) == *old(self),
            old(self).contains_coord(*coord) ==> {
                &&& (old(self).cell_at(*coord) is Collapsed ==> final(self).cell_at(*coord) == old(self).cell_at(*coord))
                &&& (old(self).cell_at(*coord) is Uncollapsed ==> final(self).cell_at(
                    *coord,
                ) is Uncollapsed && final(self).cell_at(*coord).weights() == spec_remove_weight(
                    old(self).cell_at(*coord).weights(),
                    *possibility,
                    count as nat,
                ) && final(self).cell_at(*coord).weights_total() <= old(self).cell_at(
                    *coord,
                ).weights_total())
                &&& forall|c: Self::Coordinate|
                    c != *coord && old(self).contains_coord(c) ==> #[trigger] final(self).cell_at(
                        c,
                    ) == old(self).cell_at(c)
            },
    ;

    /// Apply [`Cell::remove_possibilities`] to the cell at the coordinate,
    /// if it is in bounds.
    fn remove_cell_possibilities(&mut self, coord: &Self::Coordinate, possibilities: &WeightMap<V>)
        requires
            old(self).wf(),
        ensures
            final(self).wf(),
            final(self).spec_cell_count() == old(self).spec_cell_count(),
            final(self).uncollapsed_count() == old(self).uncollapsed_count(),
            forall|c: Self::Coordinate| final(self).contains_coord(c) == old(self).contains_coord(c),
            !old(self).contains_coord(*coord) ==> *final(self) == *old(self),
            old(self).contains_coord(*coord) ==> {
                &&& (old(self).cell_at(*coord) is Collapsed ==> final(self).cell_at(*coord) == old(self).cell_at(*coord))
                &&& (old(self).cell_at(*coord) is Uncollapsed ==> final(self).cell_at(
                    *coord,
                ) is Uncollapsed && final(self).cell_at(*coord).weights() == spec_sub_maps(
                    old(self).cell_at(*coord).weights(),
                    possibilities@,
                ) && final(self).cell_at(*coord).weights_total() <= old(self).cell_at(
                    *coord,
                ).weights_total())
                &&& forall|c: Self::Coordinate|
                    c != *coord && old(self).contains_coord(c) ==> #[trigger] final(self).cell_at(
                        c,
                    ) == old(self).cell_at(c)
            },
    ;

    /// Apply [`Cell::merge_cell_possibilities`] to the cell at the
    /// coordinate, if it is in bounds.
    fn merge_cell_possibilities(
        &mut self,
        coord: &Self::Coordinate,
        op: Operation,
        func: Function,
        weights: &WeightMap<V>,
    )
        requires
            old(self).wf(),
            !(func is Multiply),
            spec_merge_grows(op, func) && old(self).contains_coord(*coord) ==> old(self).cell_at(
                *coord,
            ).weights_total() + weights.spec_total() <= usize::MAX,
        ensures
            final(self).wf(),
            final(self).spec_cell_count() == old(self).spec_cell_count(),
            final(self).uncollapsed_count() == old(self).uncollapsed_count(),
            forall|c: Self::Coordinate| final(self).contains_coord(c) == old(self).contains_coord(c),
            !old(self).contains_coord(*coord) ==> *final(self) == *old(self),
            old(self).contains_coord(*coord) ==> {
                &&& (old(self).cell_at(*coord) is Collapsed ==> final(self).cell_at(*coord) == old(self).cell_at(*coord))
                &&& (old(self).cell_at(*coord) is Uncollapsed ==> final(self).cell_at(
                    *coord,
                ) is Uncollapsed && final(self).cell_at(*coord).weights() == spec_merge(
                    op,
                    func,
                    old(self).cell_at(*coord).weights(),
                    weights@,
                ))
                &&& forall|c: Self::Coordinate|
                    c != *coord && old(self).contains_coord(c) ==> #[trigger] final(self).cell_at(
                        c,
                    ) == old(self).cell_at(c)
            },
    ;

    /// Apply [`Cell::remove_possibility`] to the cells at all the given
    /// coordinates; out-of-bounds coordinates are skipped.
    fn remove_cells_possibility(&mut self, coords: Vec<Self::Coordinate>, possibility: &V)
        requires
            old(self).wf(),
        ensures
            final(self).wf(),
            final(self).spec_cell_count() == old(self).spec_cell_count(),
            final(self).uncollapsed_count() == old(self).uncollapsed_count(),
            forall|c: Self::Coordinate| final(self).contains_coord(c) == old(self).contains_coord(c),
            forall|c: Self::Coordinate|
                old(self).contains_coord(c) && !coords@.contains(c) ==> #[trigger] final(self).cell_at(c) == old(self).cell_at(c),
            forall|c: Self::Coordinate|
                old(self).contains_coord(c) && old(self).cell_at(c) is Collapsed
                    ==> #[trigger] final(self).cell_at(c) == old(self).cell_at(c),
            forall|c: Self::Coordinate|
                old(self).contains_coord(c) && old(self).cell_at(c) is Uncollapsed
                    && coords@.contains(c) ==> #[trigger] final(self).cell_at(c) is Uncollapsed
                    && final(self).cell_at(c).weights() == old(self).cell_at(c).weights().remove(
                    *possibility,
                ),
    ;

    /// Apply [`Cell::remove_possibility_count`] to the cells at all the
    /// given coordinates; out-of-bounds coordinates are skipped. A
    /// coordinate named several times has its weight lowered several times.
    fn remove_cells_possibility_count(
        &mut self,
        coords: Vec<Self::Coordinate>,
        possibility: &V,
        count: usize,
    )
        requires
            old(self).wf(),
        ensures
            final(self).wf(),
            final(self).spec_cell_count() == old(self).spec_cell_count(),
            final(self).uncollapsed_count() == old(self).uncollapsed_count(),
            forall|c: Self::Coordinate| final(self).contains_coord(c) == old(self).contains_coord(c),
            forall|c: Self::Coordinate|
                old(self).contains_coord(c) && !coords@.contains(c) ==> #[trigger] final(self).cell_at(c) == old(self).cell_at(c),
            forall|c: Self::Coordinate|
                old(self).contains_coord(c) && old(self).cell_at(c) is Collapsed
                    ==> #[trigger] final(self).cell_at(c) == old(self).cell_at(c),
            forall|c: Self::Coordinate|
                old(self).contains_coord(c) && old(self).cell_at(c) is Uncollapsed
                    && coords@.contains(c) ==> #[trigger] final(self).cell_at(c) is Uncollapsed
                    && final(self).cell_at(c).weights() == spec_remove_weight(
                    old(self).cell_at(c).weights(),
                    *possibility,
                    count_of(coords@, c) * (count as nat),
                ),
    ;

    /// Apply [`Cell::remove_possibilities`] to the cells at all the given
    /// coordinates; out-of-bounds coordinates are skipped. The contract
    /// names the single-application result for coordinates listed once.
    fn remove_cells_possibilities(
        &mut self,
        coords: Vec<Self::Coordinate>,
        possibilities: &WeightMap<V>,
    )
        requires
            old(self).wf(),
        ensures
            final(self).wf(),
            final(self).spec_cell_count() == old(self).spec_cell_count(),
            final(self).uncollapsed_count() == old(self).uncollapsed_count(),
            forall|c: Self::Coordinate| final(self).contains_coord(c) == old(self).contains_coord(c),
            forall|c: Self::Coordinate|
                old(self).contains_coord(c) && !coords@.contains(c) ==> #[trigger] final(self).cell_at(c) == old(self).cell_at(c),
            forall|c: Self::Coordinate|
                old(self).contains_coord(c) && old(self).cell_at(c) is Collapsed
                    ==> #[trigger] final(self).cell_at(c) == old(self).cell_at(c),
            forall|c: Self::Coordinate|
                old(self).contains_coord(c) && old(self).cell_at(c) is Uncollapsed
                    && coords@.contains(c) ==> #[trigger] final(self).cell_at(c) is Uncollapsed,
            forall|c: Self::Coordinate|
                old(self).contains_coord(c) && old(self).cell_at(c) is Uncollapsed && count_of(
                    coords@,
                    c,
                ) == 1 ==> #[trigger] final(self).cell_at(c).weights() == spec_sub_maps(
                    old(self).cell_at(c).weights(),
                    possibilities@,
                ),
    ;

    /// Apply [`Cell::add_possibility`] to the cells at all the given
    /// coordinates; out-of-bounds coordinates are skipped. A coordinate
    /// named several times has its weight raised several times.
    fn add_cells_possibility(&mut self, coords: Vec<Self::Coordinate>, possibility: &V)
        requires
            old(self).wf(),
            forall|c: Self::Coordinate|
                old(self).contains_coord(c) ==> (#[trigger] old(self).cell_at(c)).weights_total()
                    + count_of(coords@, c) <= usize::MAX,
        ensures
            final(self).wf(),
            final(self).spec_cell_count() == old(self).spec_cell_count(),
            final(self).uncollapsed_count() == old(self).uncollapsed_count(),
            forall|c: Self::Coordinate| final(self).contains_coord(c) == old(self).contains_coord(c),
            forall|c: Self::Coordinate|
                old(self).contains_coord(c) && !coords@.contains(c) ==> #[trigger] final(self).cell_at(c) == old(self).cell_at(c),
            forall|c: Self::Coordinate|
                old(self).contains_coord(c) && old(self).cell_at(c) is Collapsed
                    ==> #[trigger] final(self).cell_at(c) == old(self).cell_at(c),
            forall|c: Self::Coordinate|
                old(self).contains_coord(c) && old(self).cell_at(c) is Uncollapsed
                    && coords@.contains(c) ==> #[trigger] final(self).cell_at(c) is Uncollapsed
                    && final(self).cell_at(c).weights() == spec_add_weight(
                    old(self).cell_at(c).weights(),
                    *possibility,
                    count_of(coords@, c),
                ),
    ;

    /// Apply [`Cell::add_possibility_count`] to the cells at all the given
    /// coordinates; out-of-bounds coordinates are skipped.
    fn add_cells_possibility_count(
        &mut self,
        coords: Vec<Self::Coordinate>,
        possibility: &V,
        count: usize,
    )
        requires
            old(self).wf(),
            forall|c: Self::Coordinate|
                old(self).contains_coord(c) ==> (#[trigger] old(self).cell_at(c)).weights_total()
                    + count_of(coords@, c) * count <= usize::MAX,
        ensures
            final(self).wf(),
            final(self).spec_cell_count() == old(self).spec_cell_count(),
            final(self).uncollapsed_count() == old(self).uncollapsed_count(),
            forall|c: Self::Coordinate| final(self).contains_coord(c) == old(self).contains_coord(c),
            forall|c: Self::Coordinate|
                old(self).contains_coord(c) && !coords@.contains(c) ==> #[trigger] final(self).cell_at(c) == old(self).cell_at(c),
            forall|c: Self::Coordinate|
                old(self).contains_coord(c) && old(self).cell_at(c) is Collapsed
                    ==> #[trigger] final(self).cell_at(c) == old(self).cell_at(c),
            forall|c: Self::Coordinate|
                old(self).contains_coord(c) && old(self).cell_at(c) is Uncollapsed
                    && coords@.contains(c) ==> #[trigger] final(self).cell_at(c) is Uncollapsed
                    && final(self).cell_at(c).weights() == spec_add_weight(
                    old(self).cell_at(c).weights(),
                    *possibility,
                    count_of(coords@, c) * (count as nat),
                ),
    ;

    /// Apply [`Cell::add_possibilities`] to the cells at all the given
    /// coordinates; out-of-bounds coordinates are skipped. The contract
    /// names the single-application result for coordinates listed once.
    fn add_cells_possibilities(
        &mut self,
        coords: Vec<Self::Coordinate>,
        possibilities: &WeightMap<V>,
    )
        requires
            old(self).wf(),
            forall|c: Self::Coordinate|
                old(self).contains_coord(c) ==> (#[trigger] old(self).cell_at(c)).weights_total()
                    + count_of(coords@, c) * possibilities.spec_total() <= usize::MAX,
        ensures
            final(self).wf(),
            final(self).spec_cell_count() == old(self).spec_cell_count(),
            final(self).uncollapsed_count() == old(self).uncollapsed_count(),
            forall|c: Self::Coordinate| final(self).contains_coord(c) == old(self).contains_coord(c),
            forall|c: Self::Coordinate|
                old(self).contains_coord(c) && !coords@.contains(c) ==> #[trigger] final(self).cell_at(c) == old(self).cell_at(c),
            forall|c: Self::Coordinate|
                old(self).contains_coord(c) && old(self).cell_at(c) is Collapsed
                    ==> #[trigger] final(self).cell_at(c) == old(self).cell_at(c),
            forall|c: Self::Coordinate|
                old(self).contains_coord(c) && old(self).cell_at(c) is Uncollapsed
                    && coords@.contains(c) ==> #[trigger] final(self).cell_at(c) is Uncollapsed,
            forall|c: Self::Coordinate|
                old(self).contains_coord(c) && old(self).cell_at(c) is Uncollapsed && count_of(
                    coords@,
                    c,
                ) == 1 ==> #[trigger] final(self).cell_at(c).weights() == spec_add_maps(
                    old(self).cell_at(c).weights(),
                    possibilities@,
                ),
    ;

    /// Apply [`Cell::add_possibility`] to every cell in the layout.
    fn add_possibility(&mut self, possibility: &V)
        requires
            old(self).wf(),
            forall|c: Self::Coordinate|
                old(self).contains_coord(c) ==> (#[trigger] old(self).cell_at(c)).weights_total()
                    + 1 <= usize::MAX,
        ensures
            final(self).wf(),
            final(self).spec_cell_count() == old(self).spec_cell_count(),
            final(self).uncollapsed_count() == old(self).uncollapsed_count(),
            forall|c: Self::Coordinate| final(self).contains_coord(c) == old(self).contains_coord(c),
            forall|c: Self::Coordinate|
                old(self).contains_coord(c) && old(self).cell_at(c) is Collapsed
                    ==> #[trigger] final(self).cell_at(c) == old(self).cell_at(c),
            forall|c: Self::Coordinate|
                old(self).contains_coord(c) && old(self).cell_at(c) is Uncollapsed
                    ==> #[trigger] final(self).cell_at(c) is Uncollapsed && final(self).cell_at(
                    c,
                ).weights() == spec_add_weight(old(self).cell_at(c).weights(), *possibility, 1)
                    && final(self).cell_at(c).weights_total() == old(self).cell_at(
                    c,
                ).weights_total() + 1,
    ;

    /// Apply [`Cell::add_possibility_count`] to every cell in the layout.
    fn add_possibility_count(&mut self, possibility: &V, count: usize)
        requires
            old(self).wf(),
            forall|c: Self::Coordinate|
                old(self).contains_coord(c) ==> (#[trigger] old(self).cell_at(c)).weights_total()
                    + count <= usize::MAX,
        ensures
            final(self).wf(),
            final(self).spec_cell_count() == old(self).spec_cell_count(),
            final(self).uncollapsed_count() == old(self).uncollapsed_count(),
            forall|c: Self::Coordinate| final(self).contains_coord(c) == old(self).contains_coord(c),
            forall|c: Self::Coordinate|
                old(self).contains_coord(c) && old(self).cell_at(c) is Collapsed
                    ==> #[trigger] final(self).cell_at(c) == old(self).cell_at(c),
            forall|c: Self::Coordinate|
                old(self).contains_coord(c) && old(self).cell_at(c) is Uncollapsed
                    ==> #[trigger] final(self).cell_at(c) is Uncollapsed && final(self).cell_at(
                    c,
                ).weights() == spec_add_weight(
                    old(self).cell_at(c).weights(),
                    *possibility,
                    count as nat,
                ) && final(self).cell_at(c).weights_total() == old(self).cell_at(
                    c,
                ).weights_total() + count,
    ;

    /// Apply [`Cell::add_possibilities`] to every cell in the layout.
    fn add_possibilities(&mut self, possibilities: &WeightMap<V>)
        requires
            old(self).wf(),
            forall|c: Self::Coordinate|
                old(self).contains_coord(c) ==> (#[trigger] old(self).cell_at(c)).weights_total()
                    + possibilities.spec_total() <= usize::MAX,
        ensures
            final(self).wf(),
            final(self).spec_cell_count() == old(self).spec_cell_count(),
            final(self).uncollapsed_count() == old(self).uncollapsed_count(),
            forall|c: Self::Coordinate| final(self).contains_coord(c) == old(self).contains_coord(c),
            forall|c: Self::Coordinate|
                old(self).contains_coord(c) && old(self).cell_at(c) is Collapsed
                    ==> #[trigger] final(self).cell_at(c) == old(self).cell_at(c),
            forall|c: Self::Coordinate|
                old(self).contains_coord(c) && old(self).cell_at(c) is Uncollapsed
                    ==> #[trigger] final(self).cell_at(c) is Uncollapsed && final(self).cell_at(
                    c,
                ).weights() == spec_add_maps(old(self).cell_at(c).weights(), possibilities@)
                    && final(self).cell_at(c).weights_total() == old(self).cell_at(
                    c,
                ).weights_total() + possibilities.spec_total(),
    ;

    /// Apply [`Cell::remove_possibility`] to every cell in the layout.
    fn remove_possibility(&mut self, possibility: &V)
        requires
            old(self).wf(),
        ensures
            final(self).wf(),
            final(self).spec_cell_count() == old(self).spec_cell_count(),
            final(self).uncollapsed_count() == old(self).uncollapsed_count(),
            forall|c: Self::Coordinate| final(self).contains_coord(c) == old(self).contains_coord(c),
            forall|c: Self::Coordinate|
                old(self).contains_coord(c) && old(self).cell_at(c) is Collapsed
                    ==> #[trigger] final(self).cell_at(c) == old(self).cell_at(c),
            forall|c: Self::Coordinate|
                old(self).contains_coord(c) && old(self).cell_at(c) is Uncollapsed
                    ==> #[trigger] final(self).cell_at(c) is Uncollapsed && final(self).cell_at(
                    c,
                ).weights() == old(self).cell_at(c).weights().remove(*possibility),
    ;

    /// Apply [`Cell::remove_possibility_count`] to every cell in the layout.
    fn remove_possibility_count(&mut self, possibility: &V, count: usize)
        requires
            old(self).wf(),
        ensures
            final(self).wf(),
            final(self).spec_cell_count() == old(self).spec_cell_count(),
            final(self).uncollapsed_count() == old(self).uncollapsed_count(),
            forall|c: Self::Coordinate| final(self).contains_coord(c) == old(self).contains_coord(c),
            forall|c: Self::Coordinate|
                old(self).contains_coord(c) && old(self).cell_at(c) is Collapsed
                    ==> #[trigger] final(self).cell_at(c) == old(self).cell_at(c),
            forall|c: Self::Coordinate|
                old(self).contains_coord(c) && old(self).cell_at(c) is Uncollapsed
                    ==> #[trigger] final(self).cell_at(c) is Uncollapsed && final(self).cell_at(
                    c,
                ).weights() == spec_remove_weight(
                    old(self).cell_at(c).weights(),
                    *possibility,
                    count as nat,
                ),
    ;

    /// Apply [`Cell::remove_possibilities`] to every cell in the layout.
    fn remove_possibilities(&mut self, possibilities: &WeightMap<V>)
        requires
            old(self).wf(),
        ensures
            final(self).wf(),
            final(self).spec_cell_count() == old(self).spec_cell_count(),
            final(self).uncollapsed_count() == old(self).uncollapsed_count(),
            forall|c: Self::Coordinate| final(self).contains_coord(c) == old(self).contains_coord(c),
            forall|c: Self::Coordinate|
                old(self).contains_coord(c) && old(self).cell_at(c) is Collapsed
                    ==> #[trigger] final(self).cell_at(c) == old(self).cell_at(c),
            forall|c: Self::Coordinate|
                old(self).contains_coord(c) && old(self).cell_at(c) is Uncollapsed
                    ==> #[trigger] final(self).cell_at(c) is Uncollapsed && final(self).cell_at(
                    c,
                ).weights() == spec_sub_maps(old(self).cell_at(c).weights(), possibilities@),
    ;
}

} // verus!
