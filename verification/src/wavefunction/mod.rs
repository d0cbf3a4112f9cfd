//! The user-supplied rule that drives the solver.

mod standard;
pub use standard::Standard2D;

use crate::cell::CellValue;
use crate::layout::Layout;
use vstd::prelude::*;

verus! {

/// A constraint system the solver can collapse: an initial layout together
/// with a propagation rule.
///
/// The solver calls [`Wavefunction::collapse`] right after it commits a cell
/// to a value; the implementation must prune the candidates of other cells so
/// that the system's constraints keep holding. Pruning may reach arbitrarily
/// far and may collapse further cells through the layout, but it must never
/// undo a collapsed cell nor raise the number of uncollapsed ones — the
/// solver's termination and its promises about solved layouts rest on that.
pub trait Wavefunction: Sized {
    /// The value the cells hold.
    type V: CellValue;

    /// The layout this wavefunction works within.
    type L: Layout<Self::V>;

    /// The wavefunction's own consistency; unconstrained unless an
    /// implementation says more.
    open spec fn wf(&self) -> bool {
        true
    }

    /// The initial layout, as a value; left unspecified unless an
    /// implementation says which.
    open spec fn initial_spec(&self) -> Self::L {
        arbitrary()
    }

    /// The starting, possibly pre-seeded, layout.
    fn get_initial_state(&self) -> (r: &Self::L)
        requires
            self.wf(),
        ensures
            *r == self.initial_spec(),
            r.wf(),
    ;

    /// Maintain the constraints after the cell at `coord` was committed to
    /// `value`: prune the candidates of other cells accordingly.
    ///
    /// Collapsed cells stay exactly as they are, and the number of
    /// uncollapsed cells never grows.
    fn collapse(
        &mut self,
        layout: &mut Self::L,
        coord: <Self::L as Layout<Self::V>>::Coordinate,
        value: Self::V,
    )
        requires
            old(self).wf(),
            old(layout).wf(),
        ensures
            final(self).wf(),
            final(layout).wf(),
            final(layout).spec_cell_count() == old(layout).spec_cell_count(),
            forall|c: <Self::L as Layout<Self::V>>::Coordinate|
                final(layout).contains_coord(c) == old(layout).contains_coord(c),
            forall|c: <Self::L as Layout<Self::V>>::Coordinate|
                old(layout).contains_coord(c) && old(layout).cell_at(c) is Collapsed
                    ==> #[trigger] final(layout).cell_at(c) == old(layout).cell_at(c),
            final(layout).uncollapsed_count() <= old(layout).uncollapsed_count(),
    ;

    /// An optional debugging hook; does nothing unless an implementation
    /// overrides it.
    fn print_layout(&self, layout: &Self::L) {
    }
}

} // verus!
