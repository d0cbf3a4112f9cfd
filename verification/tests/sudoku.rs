use wave_function_collapse::{Cell, CellValue, Coord2D, Grid, Layout, Solver, Wavefunction, WeightMap};

pub struct Sudoku {
    layout: Grid<usize>,
}

impl Sudoku {
    pub fn new() -> Self {
        let mut layout = Grid::new(9, 9);

        let mut possibilities: WeightMap<usize> = WeightMap::new();
        for digit in 1..=9usize {
            possibilities.add_count(digit, 1);
        }
        layout.add_possibilities(&possibilities);

        Sudoku { layout }
    }
}

impl Wavefunction for Sudoku {
    type V = usize;
    type L = Grid<Self::V>;

    fn get_initial_state(&self) -> &Self::L {
        &self.layout
    }

    fn collapse(
        &mut self,
        layout: &mut Self::L,
        coord: <<Self as Wavefunction>::L as Layout<Self::V>>::Coordinate,
        value: Self::V,
    ) {
        // A value placed at a cell cannot recur in the cell's row, column,
        // or 3x3 subgrid.
        let row = layout.row(coord.y());
        let col = layout.col(coord.x());

        let base_x = (coord.x() / 3) * 3;
        let base_y = (coord.y() / 3) * 3;
        let mut subgrid = Vec::new();
        for sub_y in base_y..base_y + 3 {
            for sub_x in base_x..base_x + 3 {
                subgrid.push(Coord2D::new(sub_x, sub_y));
            }
        }

        let all = [row, col, subgrid].concat();
        layout.remove_cells_possibility(all, &value);
    }

    fn print_layout(&self, layout: &Self::L) {
        for y in 0..9 {
            let mut line = String::new();
            for x in 0..9 {
                match layout.get_cell(&Coord2D::new(x, y)) {
                    Some(Cell::Collapsed(value)) => line.push_str(&format!("{} ", value)),
                    Some(Cell::Uncollapsed(values)) => {
                        if values.is_empty() {
                            line.push_str("! ");
                        } else {
                            line.push_str("_ ");
                        }
                    }
                    None => line.push_str("? "),
                }
            }
            println!("{}", line);
        }
    }
}

fn digit_at(layout: &Grid<usize>, x: usize, y: usize) -> usize {
    match layout.get_cell(&Coord2D::new(x, y)) {
        Some(cell) => match cell.get_value() {
            Some(v) => v,
            None => 0,
        },
        None => 0,
    }
}

fn assert_valid_sudoku(layout: &Grid<usize>) {
    for y in 0..9 {
        for x in 0..9 {
            let v = digit_at(layout, x, y);
            assert!((1..=9).contains(&v));
            for x2 in 0..9 {
                if x2 != x {
                    assert_ne!(digit_at(layout, x2, y), v);
                }
            }
            for y2 in 0..9 {
                if y2 != y {
                    assert_ne!(digit_at(layout, x, y2), v);
                }
            }
            let bx = (x / 3) * 3;
            let by = (y / 3) * 3;
            for y2 in by..by + 3 {
                for x2 in bx..bx + 3 {
                    if (x2, y2) != (x, y) {
                        assert_ne!(digit_at(layout, x2, y2), v);
                    }
                }
            }
        }
    }
}

#[test]
fn sudoku_easy() {
    let wavefunction = Sudoku::new();

    let mut solver = Solver::new(wavefunction);
    solver.collapse_initial(Coord2D::new(3, 0), 4);
    solver.collapse_initial(Coord2D::new(5, 0), 9);
    solver.collapse_initial(Coord2D::new(6, 0), 8);
    solver.collapse_initial(Coord2D::new(8, 0), 2);

    solver.collapse_initial(Coord2D::new(0, 1), 5);
    solver.collapse_initial(Coord2D::new(1, 1), 7);
    solver.collapse_initial(Coord2D::new(3, 1), 3);
    solver.collapse_initial(Coord2D::new(4, 1), 8);
    solver.collapse_initial(Coord2D::new(8, 1), 4);

    solver.collapse_initial(Coord2D::new(5, 2), 2);
    solver.collapse_initial(Coord2D::new(6, 2), 5);

    solver.collapse_initial(Coord2D::new(0, 3), 3);
    solver.collapse_initial(Coord2D::new(1, 3), 2);
    solver.collapse_initial(Coord2D::new(2, 3), 8);
    solver.collapse_initial(Coord2D::new(4, 3), 1);
    solver.collapse_initial(Coord2D::new(5, 3), 7);
    solver.collapse_initial(Coord2D::new(7, 3), 6);

    solver.collapse_initial(Coord2D::new(1, 4), 5);
    solver.collapse_initial(Coord2D::new(2, 4), 7);
    solver.collapse_initial(Coord2D::new(3, 4), 9);
    solver.collapse_initial(Coord2D::new(4, 4), 3);

    solver.collapse_initial(Coord2D::new(0, 5), 9);
    solver.collapse_initial(Coord2D::new(4, 5), 2);
    solver.collapse_initial(Coord2D::new(6, 5), 7);
    solver.collapse_initial(Coord2D::new(7, 5), 3);

    solver.collapse_initial(Coord2D::new(0, 6), 7);
    solver.collapse_initial(Coord2D::new(1, 6), 8);
    solver.collapse_initial(Coord2D::new(3, 6), 1);

    solver.collapse_initial(Coord2D::new(0, 7), 6);
    solver.collapse_initial(Coord2D::new(2, 7), 5);
    solver.collapse_initial(Coord2D::new(3, 7), 2);
    solver.collapse_initial(Coord2D::new(5, 7), 8);
    solver.collapse_initial(Coord2D::new(8, 7), 7);

    solver.collapse_initial(Coord2D::new(1, 8), 9);
    solver.collapse_initial(Coord2D::new(2, 8), 4);
    solver.collapse_initial(Coord2D::new(4, 8), 7);
    solver.collapse_initial(Coord2D::new(5, 8), 3);
    solver.collapse_initial(Coord2D::new(7, 8), 5);

    println!("Initial State:");
    solver.print_layout();

    println!();

    let output = solver.solve();

    if output.is_some() {
        println!("Solution found");
    } else {
        println!("No solution");
    }

    println!("Backtracks: {}", solver.get_backtrack_count());

    assert!(output.is_some());
    assert_valid_sudoku(&output.unwrap());
}

#[test]
fn sudoku_hard() {
    let wavefunction = Sudoku::new();

    let mut solver = Solver::new(wavefunction);
    solver.collapse_initial(Coord2D::new(1, 0), 3);
    solver.collapse_initial(Coord2D::new(3, 0), 8);
    solver.collapse_initial(Coord2D::new(5, 0), 2);
    solver.collapse_initial(Coord2D::new(8, 0), 5);

    solver.collapse_initial(Coord2D::new(0, 1), 6);
    solver.collapse_initial(Coord2D::new(5, 1), 9);

    solver.collapse_initial(Coord2D::new(2, 2), 8);
    solver.collapse_initial(Coord2D::new(3, 2), 5);
    solver.collapse_initial(Coord2D::new(7, 2), 4);
    solver.collapse_initial(Coord2D::new(8, 2), 3);

    solver.collapse_initial(Coord2D::new(2, 3), 7);
    solver.collapse_initial(Coord2D::new(8, 3), 1);

    solver.collapse_initial(Coord2D::new(2, 4), 9);
    solver.collapse_initial(Coord2D::new(6, 4), 4);

    solver.collapse_initial(Coord2D::new(0, 5), 5);
    solver.collapse_initial(Coord2D::new(6, 5), 7);

    solver.collapse_initial(Coord2D::new(0, 6), 9);
    solver.collapse_initial(Coord2D::new(1, 6), 6);
    solver.collapse_initial(Coord2D::new(5, 6), 1);
    solver.collapse_initial(Coord2D::new(6, 6), 3);

    solver.collapse_initial(Coord2D::new(3, 7), 6);
    solver.collapse_initial(Coord2D::new(8, 7), 8);

    solver.collapse_initial(Coord2D::new(0, 8), 2);
    solver.collapse_initial(Coord2D::new(3, 8), 9);
    solver.collapse_initial(Coord2D::new(5, 8), 3);
    solver.collapse_initial(Coord2D::new(7, 8), 7);

    println!("Initial State:");
    solver.print_layout();

    println!();

    let output = solver.solve();

    if output.is_some() {
        println!("Solution found");
    } else {
        println!("No solution");
    }

    println!("Backtracks: {}", solver.get_backtrack_count());

    assert!(output.is_some());
    assert_valid_sudoku(&output.unwrap());
}

#[test]
fn sudoku_invalid() {
    let wavefunction = Sudoku::new();

    let mut solver = Solver::new(wavefunction);
    solver.collapse_initial(Coord2D::new(0, 0), 1);
    solver.collapse_initial(Coord2D::new(2, 0), 4);

    solver.collapse_initial(Coord2D::new(0, 1), 2);
    solver.collapse_initial(Coord2D::new(2, 1), 5);

    solver.collapse_initial(Coord2D::new(0, 2), 3);
    solver.collapse_initial(Coord2D::new(2, 2), 6);

    solver.collapse_initial(Coord2D::new(1, 3), 7);

    solver.collapse_initial(Coord2D::new(1, 4), 8);

    solver.collapse_initial(Coord2D::new(1, 5), 9);

    println!("Initial State:");
    solver.print_layout();

    println!();

    let output = solver.solve();

    if output.is_some() {
        println!("Solution found");
    } else {
        println!("No solution");
    }

    println!("Backtracks: {}", solver.get_backtrack_count());

    assert!(output.is_none());
    assert!(solver.get_backtrack_count() >= 1);
}
