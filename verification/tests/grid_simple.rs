use wave_function_collapse::{Cell, CellValue, Coord2D, Grid, Layout, Solver, Wavefunction, WeightMap};

#[derive(Debug, PartialEq, Eq, Clone, Copy)]
pub enum LandCoastSea {
    Land,
    Coast,
    Sea,
}

impl CellValue for LandCoastSea {
    fn same(&self, other: &Self) -> bool {
        self == other
    }
}

pub struct GridTest {
    layout: Grid<LandCoastSea>,
}

impl GridTest {
    pub fn new(x: usize, y: usize) -> Self {
        let mut layout = Grid::new(x, y);

        let mut possibilities: WeightMap<LandCoastSea> = WeightMap::new();
        possibilities.add_count(LandCoastSea::Coast, 5);
        possibilities.add_count(LandCoastSea::Sea, 100);
        possibilities.add_count(LandCoastSea::Land, 100);
        layout.add_possibilities(&possibilities);

        GridTest { layout }
    }
}

impl Wavefunction for GridTest {
    type V = LandCoastSea;

    type L = Grid<Self::V>;

    fn get_initial_state(&self) -> &Self::L {
        &self.layout
    }

    fn collapse(
        &mut self,
        layout: &mut Self::L,
        coord: <<Self as Wavefunction>::L as Layout<Self::V>>::Coordinate,
        value: Self::V,
    ) {
        // Simple rules: land cannot be directly next to sea; there must be
        // a coast in between.
        match value {
            LandCoastSea::Land => {
                let coords = layout.neighbors(coord);
                layout.remove_cells_possibility(coords, &LandCoastSea::Sea);
            }
            LandCoastSea::Coast => {}
            LandCoastSea::Sea => {
                let coords = layout.neighbors(coord);
                layout.remove_cells_possibility(coords, &LandCoastSea::Land)
            }
        }
    }
}

fn terrain_at(layout: &Grid<LandCoastSea>, x: usize, y: usize) -> Option<LandCoastSea> {
    match layout.get_cell(&Coord2D::new(x, y)) {
        Some(Cell::Collapsed(v)) => Some(*v),
        _ => None,
    }
}

#[test]
fn grid_simple_grid_land_coast_sea() {
    let wavefunction = GridTest::new(50, 20);

    let mut solver = Solver::new(wavefunction);
    solver.collapse_initial(Coord2D::new(0, 0), LandCoastSea::Land);
    solver.collapse_initial(Coord2D::new(25, 10), LandCoastSea::Sea);
    let output = solver.solve();

    if output.is_some() {
        println!("Solution found");
    } else {
        println!("No solution");
    }

    println!("Backtracks: {}", solver.get_backtrack_count());

    // The pins must be honored, every cell decided, and no land directly
    // next to sea anywhere, diagonals included.
    let layout = output.expect("the pinned island grid is solvable");
    assert_eq!(terrain_at(&layout, 0, 0), Some(LandCoastSea::Land));
    assert_eq!(terrain_at(&layout, 25, 10), Some(LandCoastSea::Sea));
    for y in 0..20i64 {
        for x in 0..50i64 {
            let here = terrain_at(&layout, x as usize, y as usize).expect("every cell collapsed");
            for dy in -1..=1i64 {
                for dx in -1..=1i64 {
                    if dx == 0 && dy == 0 {
                        continue;
                    }
                    let nx = x + dx;
                    let ny = y + dy;
                    if nx < 0 || ny < 0 || nx >= 50 || ny >= 20 {
                        continue;
                    }
                    let there = terrain_at(&layout, nx as usize, ny as usize).unwrap();
                    if here == LandCoastSea::Land {
                        assert_ne!(there, LandCoastSea::Sea);
                    }
                    if here == LandCoastSea::Sea {
                        assert_ne!(there, LandCoastSea::Land);
                    }
                }
            }
        }
    }
}
