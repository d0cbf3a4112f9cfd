use wave_function_collapse::{Cell, CellValue, Coord2D, Grid, Layout, Solver, Wavefunction, WeightMap};

#[derive(Debug, PartialEq, Eq, Clone, Copy)]
pub enum LandCoastSea {
    Land,
    Coast,
    Sea,
}

impl CellValue for LandCoastSea {
    fn same(&self, other: &Self) -> bool {
        self == other
    }
}

pub struct GridTest {
    layout: Grid<LandCoastSea>,
}

impl GridTest {
    pub fn new(x: usize, y: usize) -> Self {
        let mut layout = Grid::new(x, y);

        let mut possibilities: WeightMap<LandCoastSea> = WeightMap::new();
        possibilities.add_count(LandCoastSea::Coast, 2);
        possibilities.add_count(LandCoastSea::Sea, 100);
        possibilities.add_count(LandCoastSea::Land, 100);
        layout.add_possibilities(&possibilities);

        GridTest { layout }
    }
}

fn collapsed_to(layout: &Grid<LandCoastSea>, coord: &Coord2D, value: LandCoastSea) -> bool {
    matches!(layout.get_cell(coord), Some(Cell::Collapsed(v)) if *v == value)
}

impl Wavefunction for GridTest {
    type V = LandCoastSea;

    type L = Grid<Self::V>;

    fn get_initial_state(&self) -> &Self::L {
        &self.layout
    }

    fn collapse(
        &mut self,
        layout: &mut Self::L,
        coord: <<Self as Wavefunction>::L as Layout<Self::V>>::Coordinate,
        value: Self::V,
    ) {
        // Land cannot touch sea; there must be a coast in between, and a
        // cell next to a coast cannot match the terrain on the coast's
        // opposite side, which keeps the coastlines sharp.
        match value {
            LandCoastSea::Land => {
                // Sea cannot be next to land.
                let coords = layout.neighbors(coord);
                layout.remove_cells_possibility(coords, &LandCoastSea::Sea);

                // For each neighboring coast, remove the possibility of
                // land from its opposite side.
                if collapsed_to(layout, &coord.up_left(), LandCoastSea::Coast) {
                    layout.remove_cell_possibility(&coord.up_left().up_left(), &LandCoastSea::Land);
                }
                if collapsed_to(layout, &coord.up(), LandCoastSea::Coast) {
                    layout.remove_cell_possibility(&coord.up().up(), &LandCoastSea::Land);
                }
                if collapsed_to(layout, &coord.up_right(), LandCoastSea::Coast) {
                    layout.remove_cell_possibility(&coord.up_right().up_right(), &LandCoastSea::Land);
                }

                if collapsed_to(layout, &coord.left(), LandCoastSea::Coast) {
                    layout.remove_cell_possibility(&coord.left().left(), &LandCoastSea::Land);
                }
                if collapsed_to(layout, &coord.right(), LandCoastSea::Coast) {
                    layout.remove_cell_possibility(&coord.right().right(), &LandCoastSea::Land);
                }

                if collapsed_to(layout, &coord.down_left(), LandCoastSea::Coast) {
                    layout.remove_cell_possibility(&coord.down_left().down_left(), &LandCoastSea::Land);
                }
                if collapsed_to(layout, &coord.down(), LandCoastSea::Coast) {
                    layout.remove_cell_possibility(&coord.down().down(), &LandCoastSea::Land);
                }
                if collapsed_to(layout, &coord.down_right(), LandCoastSea::Coast) {
                    layout.remove_cell_possibility(&coord.down_right().down_right(), &LandCoastSea::Land);
                }
            }
            LandCoastSea::Coast => {
                // If a neighbor is land, the cross neighbor cannot be land;
                // the same for sea.
                if collapsed_to(layout, &coord.up_left(), LandCoastSea::Land) {
                    layout.remove_cell_possibility(&coord.down_right(), &LandCoastSea::Land);
                }
                if collapsed_to(layout, &coord.up(), LandCoastSea::Land) {
                    layout.remove_cell_possibility(&coord.down(), &LandCoastSea::Land);
                }
                if collapsed_to(layout, &coord.up_right(), LandCoastSea::Land) {
                    layout.remove_cell_possibility(&coord.down_left(), &LandCoastSea::Land);
                }

                if collapsed_to(layout, &coord.left(), LandCoastSea::Land) {
                    layout.remove_cell_possibility(&coord.right(), &LandCoastSea::Land);
                }
                if collapsed_to(layout, &coord.right(), LandCoastSea::Land) {
                    layout.remove_cell_possibility(&coord.left(), &LandCoastSea::Land);
                }

                if collapsed_to(layout, &coord.down_left(), LandCoastSea::Land) {
                    layout.remove_cell_possibility(&coord.up_right(), &LandCoastSea::Land);
                }
                if collapsed_to(layout, &coord.down(), LandCoastSea::Land) {
                    layout.remove_cell_possibility(&coord.up(), &LandCoastSea::Land);
                }
                if collapsed_to(layout, &coord.down_right(), LandCoastSea::Land) {
                    layout.remove_cell_possibility(&coord.up_left(), &LandCoastSea::Land);
                }

                if collapsed_to(layout, &coord.up_left(), LandCoastSea::Sea) {
                    layout.remove_cell_possibility(&coord.down_right(), &LandCoastSea::Sea);
                }
                if collapsed_to(layout, &coord.up(), LandCoastSea::Sea) {
                    layout.remove_cell_possibility(&coord.down(), &LandCoastSea::Sea);
                }
                if collapsed_to(layout, &coord.up_right(), LandCoastSea::Sea) {
                    layout.remove_cell_possibility(&coord.down_left(), &LandCoastSea::Sea);
                }

                if collapsed_to(layout, &coord.left(), LandCoastSea::Sea) {
                    layout.remove_cell_possibility(&coord.right(), &LandCoastSea::Sea);
                }
                if collapsed_to(layout, &coord.right(), LandCoastSea::Sea) {
                    layout.remove_cell_possibility(&coord.left(), &LandCoastSea::Sea);
                }

                if collapsed_to(layout, &coord.down_left(), LandCoastSea::Sea) {
                    layout.remove_cell_possibility(&coord.up_right(), &LandCoastSea::Sea);
                }
                if collapsed_to(layout, &coord.down(), LandCoastSea::Sea) {
                    layout.remove_cell_possibility(&coord.up(), &LandCoastSea::Sea);
                }
                if collapsed_to(layout, &coord.down_right(), LandCoastSea::Sea) {
                    layout.remove_cell_possibility(&coord.up_left(), &LandCoastSea::Sea);
                }
            }
            LandCoastSea::Sea => {
                // Land cannot be next to sea.
                let coords = layout.neighbors(coord);
                layout.remove_cells_possibility(coords, &LandCoastSea::Land);

                // For each neighboring coast, remove the possibility of sea
                // from its opposite side.
                if collapsed_to(layout, &coord.up_left(), LandCoastSea::Coast) {
                    layout.remove_cell_possibility(&coord.up_left().up_left(), &LandCoastSea::Sea);
                }
                if collapsed_to(layout, &coord.up(), LandCoastSea::Coast) {
                    layout.remove_cell_possibility(&coord.up().up(), &LandCoastSea::Sea);
                }
                if collapsed_to(layout, &coord.up_right(), LandCoastSea::Coast) {
                    layout.remove_cell_possibility(&coord.up_right().up_right(), &LandCoastSea::Sea);
                }

                if collapsed_to(layout, &coord.left(), LandCoastSea::Coast) {
                    layout.remove_cell_possibility(&coord.left().left(), &LandCoastSea::Sea);
                }
                if collapsed_to(layout, &coord.right(), LandCoastSea::Coast) {
                    layout.remove_cell_possibility(&coord.right().right(), &LandCoastSea::Sea);
                }

                if collapsed_to(layout, &coord.down_left(), LandCoastSea::Coast) {
                    layout.remove_cell_possibility(&coord.down_left().down_left(), &LandCoastSea::Sea);
                }
                if collapsed_to(layout, &coord.down(), LandCoastSea::Coast) {
                    layout.remove_cell_possibility(&coord.down().down(), &LandCoastSea::Sea);
                }
                if collapsed_to(layout, &coord.down_right(), LandCoastSea::Coast) {
                    layout.remove_cell_possibility(&coord.down_right().down_right(), &LandCoastSea::Sea);
                }
            }
        }
    }
}

#[test]
fn grid_sharp_coastlines_grid_land_coast_sea() {
    let wavefunction = GridTest::new(50, 30);

    let mut solver = Solver::new(wavefunction);
    let output = solver.solve();

    if output.is_some() {
        println!("Solution found");
    } else {
        println!("No solution");
    }
}
