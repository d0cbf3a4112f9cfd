use std::cell::RefCell;
use std::rc::Rc;
use wave_function_collapse::{Cell, CellValue, Coord2D, Grid, Layout, Solver, Wavefunction, WeightMap};

#[derive(Debug, PartialEq, Eq, Clone, Copy)]
enum Shade {
    Dark,
    Mid,
    Light,
}

impl CellValue for Shade {
    fn same(&self, other: &Self) -> bool {
        self == other
    }
}

/// A wavefunction with no constraints at all that remembers the column of
/// the first cell the solver chose to branch on.
struct FirstPickProbe {
    layout: Grid<Shade>,
    first: Rc<RefCell<Option<usize>>>,
}

impl FirstPickProbe {
    fn new(width: usize, first: Rc<RefCell<Option<usize>>>) -> Self {
        let mut layout = Grid::new(width, 1);
        let mut possibilities: WeightMap<Shade> = WeightMap::new();
        possibilities.add_count(Shade::Dark, 1);
        possibilities.add_count(Shade::Mid, 1);
        possibilities.add_count(Shade::Light, 1);
        layout.add_possibilities(&possibilities);
        FirstPickProbe { layout, first }
    }
}

impl Wavefunction for FirstPickProbe {
    type V = Shade;
    type L = Grid<Shade>;

    fn get_initial_state(&self) -> &Self::L {
        &self.layout
    }

    fn collapse(
        &mut self,
        _layout: &mut Self::L,
        coord: <<Self as Wavefunction>::L as Layout<Self::V>>::Coordinate,
        _value: Self::V,
    ) {
        let mut first = self.first.borrow_mut();
        if first.is_none() {
            *first = Some(coord.x());
        }
    }
}

#[test]
fn entropy_ties_are_broken_fairly() {
    // Three cells with identical equal-weight superpositions: over many
    // runs the first branch cell is close to uniform over the three.
    let runs = 300;
    let mut counts = [0usize; 3];
    for _ in 0..runs {
        let first = Rc::new(RefCell::new(None));
        let probe = FirstPickProbe::new(3, Rc::clone(&first));
        let mut solver = Solver::new(probe);
        let output = solver.solve();
        assert!(output.is_some());
        let picked = first.borrow().expect("the hook runs at least once");
        counts[picked] += 1;
    }
    for (x, count) in counts.iter().enumerate() {
        assert!(
            *count >= 50,
            "cell {} was picked first only {} times of {}",
            x,
            count,
            runs
        );
    }
}

/// A wavefunction whose rule forbids equal neighbors on a line of cells.
struct DistinctNeighbors {
    layout: Grid<Shade>,
}

impl DistinctNeighbors {
    fn new(width: usize) -> Self {
        let mut layout = Grid::new(width, 1);
        let mut possibilities: WeightMap<Shade> = WeightMap::new();
        possibilities.add_count(Shade::Dark, 1);
        possibilities.add_count(Shade::Mid, 1);
        possibilities.add_count(Shade::Light, 1);
        layout.add_possibilities(&possibilities);
        DistinctNeighbors { layout }
    }
}

impl Wavefunction for DistinctNeighbors {
    type V = Shade;
    type L = Grid<Shade>;

    fn get_initial_state(&self) -> &Self::L {
        &self.layout
    }

    fn collapse(
        &mut self,
        layout: &mut Self::L,
        coord: <<Self as Wavefunction>::L as Layout<Self::V>>::Coordinate,
        value: Self::V,
    ) {
        layout.remove_cell_possibility(&coord.left(), &value);
        layout.remove_cell_possibility(&coord.right(), &value);
    }
}

#[test]
fn pinned_cells_stay_pinned() {
    let mut solver = Solver::new(DistinctNeighbors::new(6));
    solver.collapse_initial(Coord2D::new(0, 0), Shade::Dark);
    solver.collapse_initial(Coord2D::new(3, 0), Shade::Light);
    let layout = solver.solve().expect("a line with distinct neighbors is solvable");
    let value_at = |x: usize| match layout.get_cell(&Coord2D::new(x, 0)) {
        Some(Cell::Collapsed(v)) => *v,
        _ => panic!("cell {} should be collapsed", x),
    };
    assert_eq!(value_at(0), Shade::Dark);
    assert_eq!(value_at(3), Shade::Light);
    for x in 0..5 {
        assert_ne!(value_at(x), value_at(x + 1));
    }
}

/// A wavefunction whose rule forbids everything: the first commitment
/// empties every other cell.
struct Impossible {
    layout: Grid<Shade>,
}

impl Impossible {
    fn new() -> Self {
        let mut layout = Grid::new(2, 2);
        let mut possibilities: WeightMap<Shade> = WeightMap::new();
        possibilities.add_count(Shade::Dark, 1);
        possibilities.add_count(Shade::Light, 1);
        layout.add_possibilities(&possibilities);
        Impossible { layout }
    }
}

impl Wavefunction for Impossible {
    type V = Shade;
    type L = Grid<Shade>;

    fn get_initial_state(&self) -> &Self::L {
        &self.layout
    }

    fn collapse(
        &mut self,
        layout: &mut Self::L,
        coord: <<Self as Wavefunction>::L as Layout<Self::V>>::Coordinate,
        _value: Self::V,
    ) {
        for neighbor in layout.neighbors(coord) {
            layout.clear_cell(&neighbor);
        }
    }
}

#[test]
fn failed_searches_count_backtracks() {
    let mut solver = Solver::new(Impossible::new());
    let output = solver.solve();
    assert!(output.is_none());
    assert!(solver.get_backtrack_count() >= 1);
}

#[test]
fn solve_leaves_the_initial_layout_reusable() {
    // A failed or successful search does not consume the initial state:
    // solving twice works and honors the same pins.
    let mut solver = Solver::new(DistinctNeighbors::new(4));
    solver.collapse_initial(Coord2D::new(1, 0), Shade::Mid);
    let first = solver.solve().expect("solvable");
    let second = solver.solve().expect("still solvable");
    for layout in [&first, &second] {
        match layout.get_cell(&Coord2D::new(1, 0)) {
            Some(Cell::Collapsed(v)) => assert_eq!(*v, Shade::Mid),
            _ => panic!("pinned cell must stay collapsed"),
        }
    }
}
