//! The backtracking search that collapses a wavefunction.

use crate::cell::{Cell, CellValue};
use crate::layout::Layout;
use crate::rng::random_below;
use crate::wavefunction::Wavefunction;
use crate::weighted_iterator::WeightedIterator;
use vstd::prelude::*;

verus! {

/// Collapses the [`Wavefunction`] it is created with, by recursive
/// minimum-entropy backtracking search, returning a fully collapsed
/// [`Layout`] or reporting that none exists.
pub struct Solver<W: Wavefunction> {
    wavefunction: W,
    initial_state: W::L,
    backtracks: u32,
}

impl<W: Wavefunction> Solver<W> {
    /// The solver's internal consistency.
    pub closed spec fn wf(&self) -> bool {
        &&& self.wavefunction.wf()
        &&& self.initial_state.wf()
    }

    /// The initial layout the search will start from.
    pub closed spec fn initial(&self) -> W::L {
        self.initial_state
    }

    /// The number of backtracks of the last search.
    pub closed spec fn backtrack_spec(&self) -> nat {
        self.backtracks as nat
    }

    /// A solver for the given wavefunction; its initial layout is an
    /// equivalent copy of the wavefunction's own, cell for cell.
    pub fn new(wavefunction: W) -> (r: Self)
        requires
            wavefunction.wf(),
        ensures
            r.wf(),
            r.backtrack_spec() == 0,
            r.initial().spec_cell_count() == wavefunction.initial_spec().spec_cell_count(),
            r.initial().uncollapsed_count() == wavefunction.initial_spec().uncollapsed_count(),
            forall|c: <W::L as Layout<W::V>>::Coordinate| r.initial().contains_coord(c)
                == wavefunction.initial_spec().contains_coord(c),
            forall|c: <W::L as Layout<W::V>>::Coordinate|
                wavefunction.initial_spec().contains_coord(c) ==> (#[trigger] r.initial().cell_at(
                    c,
                )).equiv(&wavefunction.initial_spec().cell_at(c)),
    {
        let layout = wavefunction.get_initial_state().duplicate();
        Solver { wavefunction, initial_state: layout, backtracks: 0 }
    }

    /// Hand the initial layout to the wavefunction's debugging hook.
    pub fn print_layout(&self)
        requires
            self.wf(),
    {
        self.wavefunction.print_layout(&self.initial_state);
    }

    /// The number of backtracks the last search made.
    pub fn get_backtrack_count(&self) -> (r: u32)
        ensures
            r as nat == self.backtrack_spec(),
    {
        self.backtracks
    }

    /// Pin a cell of the initial layout: collapse it to the given value and
    /// run the wavefunction's propagation. Several pins compose — earlier
    /// pins stay collapsed as they were.
    pub fn collapse_initial(
        &mut self,
        coord: <W::L as Layout<W::V>>::Coordinate,
        value: W::V,
    )
        requires
            old(self).wf(),
        ensures
            final(self).wf(),
            final(self).backtrack_spec() == old(self).backtrack_spec(),
            forall|c: <W::L as Layout<W::V>>::Coordinate| final(self).initial().contains_coord(c)
                == old(self).initial().contains_coord(c),
            old(self).initial().contains_coord(coord) ==> final(self).initial().cell_at(coord)
                == Cell::<W::V>::Collapsed(value),
            forall|c: <W::L as Layout<W::V>>::Coordinate|
                c != coord && old(self).initial().contains_coord(c) && old(
                    self,
                ).initial().cell_at(c) is Collapsed ==> #[trigger] final(self).initial().cell_at(c)
                    == old(self).initial().cell_at(c),
    {
        self.initial_state.collapse(&coord, value);
        self.wavefunction.collapse(&mut self.initial_state, coord, value);
    }

    /// Search for a solution from the current initial layout.
    ///
    /// A returned layout is fully collapsed, covers the same coordinates as
    /// the initial layout, and keeps every cell that was pinned in the
    /// initial layout exactly as pinned. An initial layout with nothing left
    /// to decide is owed a solution. When no assignment satisfies the
    /// wavefunction, nothing is returned and at least one backtrack has been
    /// counted. The initial layout itself is left untouched, so the search
    /// can be run again.
    pub fn solve(&mut self) -> (r: Option<W::L>)
        requires
            old(self).wf(),
        ensures
            final(self).wf(),
            final(self).initial() == old(self).initial(),
            old(self).initial().uncollapsed_count() == 0 ==> r is Some,
            match r {
                Some(l) => {
                    &&& l.wf()
                    &&& forall|c: <W::L as Layout<W::V>>::Coordinate|
                        l.contains_coord(c) ==> (#[trigger] l.cell_at(c)) is Collapsed
                    &&& forall|c: <W::L as Layout<W::V>>::Coordinate| l.contains_coord(c) == old(
                        self,
                    ).initial().contains_coord(c)
                    &&& forall|c: <W::L as Layout<W::V>>::Coordinate|
                        old(self).initial().contains_coord(c) && old(self).initial().cell_at(
                            c,
                        ) is Collapsed ==> #[trigger] l.cell_at(c) == old(self).initial().cell_at(
                            c,
                        )
                },
                None => final(self).backtrack_spec() >= 1,
            },
    {
        let layout = self.initial_state.duplicate();
        self.backtracks = 0;
        match self.next_coord(&layout) {
            None => Some(layout),
            Some(coord) => self.collapse(&layout, &coord),
        }
    }

    /// One speculative branch of the search: try every candidate of the cell
    /// at `coord` in weighted random order, committing, propagating and
    /// recursing; count a backtrack when all fail.
    fn collapse(
        &mut self,
        layout: &W::L,
        coord: &<W::L as Layout<W::V>>::Coordinate,
    ) -> (r: Option<W::L>)
        requires
            old(self).wf(),
            layout.wf(),
            layout.contains_coord(*coord),
            layout.cell_at(*coord) is Uncollapsed,
        ensures
            final(self).wf(),
            final(self).initial() == old(self).initial(),
            final(self).backtrack_spec() >= old(self).backtrack_spec(),
            match r {
                Some(l) => {
                    &&& l.wf()
                    &&& forall|c: <W::L as Layout<W::V>>::Coordinate|
                        l.contains_coord(c) ==> (#[trigger] l.cell_at(c)) is Collapsed
                    &&& forall|c: <W::L as Layout<W::V>>::Coordinate| l.contains_coord(c)
                        == layout.contains_coord(c)
                    &&& forall|c: <W::L as Layout<W::V>>::Coordinate|
                        layout.contains_coord(c) && layout.cell_at(c) is Collapsed
                            ==> #[trigger] l.cell_at(c) == layout.cell_at(c)
                },
                None => final(self).backtrack_spec() >= 1,
            },
        decreases layout.uncollapsed_count(),
    {
        let possibilities = match layout.get_cell(coord) {
            Some(cell) => cell.get_possibilities(),
            None => {
                proof {
                    assert(false);
                }
                unreached()
            },
        };
        let mut draws = WeightedIterator::new(possibilities);
        loop
            invariant
                draws.wf(),
                self.wf(),
                self.initial() == old(self).initial(),
                self.backtrack_spec() >= old(self).backtrack_spec(),
                layout.wf(),
                layout.contains_coord(*coord),
                layout.cell_at(*coord) is Uncollapsed,
            decreases draws.spec_remaining(),
        {
            let value = match draws.next() {
                Some(value) => value,
                None => {
                    break ;
                },
            };
            let mut new_layout = layout.duplicate();
            proof {
                assert(new_layout.cell_at(*coord).equiv(&layout.cell_at(*coord)));
            }
            new_layout.collapse(coord, value);
            self.wavefunction.collapse(&mut new_layout, *coord, value);
            match self.next_coord(&new_layout) {
                None => {
                    return Some(new_layout);
                },
                Some(next) => {
                    proof {
                        assert(new_layout.uncollapsed_count() < layout.uncollapsed_count());
                    }
                    let result = self.collapse(&new_layout, &next);
                    if result.is_some() {
                        return result;
                    }
                },
            }
        }
        self.backtracks = self.backtracks.saturating_add(1);
        None
    }

    /// The next cell to branch on: among the uncollapsed cells of lowest
    /// entropy, one chosen uniformly at random; nothing when every cell is
    /// collapsed.
    fn next_coord(&self, layout: &W::L) -> (r: Option<<W::L as Layout<W::V>>::Coordinate>)
        requires
            layout.wf(),
        ensures
            match r {
                None => layout.uncollapsed_count() == 0 && forall|
                    c: <W::L as Layout<W::V>>::Coordinate,
                |
                    layout.contains_coord(c) ==> (#[trigger] layout.cell_at(c)) is Collapsed,
                Some(c) => {
                    &&& layout.uncollapsed_count() > 0
                    &&& layout.contains_coord(c)
                    &&& layout.cell_at(c) is Uncollapsed
                    &&& forall|d: <W::L as Layout<W::V>>::Coordinate|
                        layout.contains_coord(d) && (#[trigger] layout.cell_at(d)) is Uncollapsed
                            ==> layout.cell_at(c).spec_entropy() <= layout.cell_at(
                            d,
                        ).spec_entropy()
                },
            },
    {
        let cands = layout.candidates();
        let n = cands.len();
        if n == 0 {
            proof {
                assert forall|c: <W::L as Layout<W::V>>::Coordinate|
                    layout.contains_coord(c) implies (#[trigger] layout.cell_at(c)) is Collapsed
                    by {
                    if layout.cell_at(c) is Uncollapsed {
                        assert(cands@.contains(c));
                    }
                }
            }
            return None;
        }
        let mut best: u64 = u64::MAX;
        let mut ties: Vec<<W::L as Layout<W::V>>::Coordinate> = Vec::new();
        for i in 0..n
            invariant
                n == cands@.len(),
                layout.wf(),
                forall|j: int| 0 <= j < n ==> layout.contains_coord(#[trigger] cands@[j])
                    && layout.cell_at(cands@[j]) is Uncollapsed,
                i > 0 ==> ties@.len() >= 1,
                i == 0 ==> best == u64::MAX,
                forall|j: int| 0 <= j < ties@.len() ==> layout.contains_coord(#[trigger] ties@[j])
                    && layout.cell_at(ties@[j]) is Uncollapsed && layout.cell_at(
                    ties@[j],
                ).spec_entropy() == best as nat,
                forall|j: int| 0 <= j < i ==> layout.cell_at(#[trigger] cands@[j]).spec_entropy()
                    >= best as nat,
        {
            let c = cands[i];
            let e = match layout.get_cell(&c) {
                Some(cell) => cell.entropy(),
                None => {
                    proof {
                        assert(false);
                    }
                    unreached()
                },
            };
            if e < best {
                best = e;
                let mut fresh: Vec<<W::L as Layout<W::V>>::Coordinate> = Vec::new();
                fresh.push(c);
                ties = fresh;
            } else if e == best {
                ties.push(c);
            }
        }
        let pick = random_below(ties.len());
        let chosen = ties[pick];
        proof {
            assert forall|d: <W::L as Layout<W::V>>::Coordinate|
                layout.contains_coord(d) && (#[trigger] layout.cell_at(d)) is Uncollapsed
                implies layout.cell_at(chosen).spec_entropy() <= layout.cell_at(d).spec_entropy()
                by {
                assert(cands@.contains(d));
                let j = choose|j: int| 0 <= j < cands@.len() && cands@[j] == d;
                assert(layout.cell_at(cands@[j]).spec_entropy() >= best as nat);
            }
        }
        Some(chosen)
    }
}

} // verus!
