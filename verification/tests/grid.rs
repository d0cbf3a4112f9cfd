use wave_function_collapse::{CellValue, Grid, Layout, Solver, Wavefunction, WeightMap};

#[derive(Debug, PartialEq, Eq, Clone, Copy)]
pub enum LandCoastSea {
    Land,
    Coast,
    Sea,
}

impl CellValue for LandCoastSea {
    fn same(&self, other: &Self) -> bool {
        self == other
    }
}

pub struct GridTest {
    layout: Grid<LandCoastSea>,
}

impl GridTest {
    pub fn new(x: usize, y: usize) -> Self {
        let mut layout = Grid::new(x, y);

        let mut possibilities: WeightMap<LandCoastSea> = WeightMap::new();
        possibilities.add_count(LandCoastSea::Coast, 1);
        possibilities.add_count(LandCoastSea::Sea, 1);
        possibilities.add_count(LandCoastSea::Land, 1);
        layout.add_possibilities(&possibilities);

        GridTest { layout }
    }
}

impl Wavefunction for GridTest {
    type V = LandCoastSea;

    type L = Grid<Self::V>;

    fn get_initial_state(&self) -> &Self::L {
        &self.layout
    }

    fn collapse(
        &mut self,
        layout: &mut Self::L,
        coord: <<Self as Wavefunction>::L as Layout<Self::V>>::Coordinate,
        value: Self::V,
    ) {
        // Simple rules: land cannot be directly next to sea; there must be
        // a coast in between.
        match value {
            LandCoastSea::Land => {
                let coords = layout.neighbors(coord);
                layout.remove_cells_possibility(coords, &LandCoastSea::Sea);
            }
            LandCoastSea::Coast => {}
            LandCoastSea::Sea => {
                let coords = layout.neighbors(coord);
                layout.remove_cells_possibility(coords, &LandCoastSea::Land)
            }
        }
    }
}

#[test]
fn grid_grid_land_coast_sea() {
    let wavefunction = GridTest::new(10, 15);
    println!("Initial Configuration:");
    println!("a 10 by 15 grid, every cell holding the three terrain candidates");

    let mut solver = Solver::new(wavefunction);
    let output = solver.solve();

    if output.is_some() {
        println!("Solution found");
    } else {
        println!("No solution");
    }
    assert!(output.is_some());
}
