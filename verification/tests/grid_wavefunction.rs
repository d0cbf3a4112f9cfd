use wave_function_collapse::{Cell, CellValue, Coord2D, Grid, Layout, Solver, Standard2D, Tile2D};

#[derive(Debug, PartialEq, Eq, Clone, Copy)]
pub enum LandCoastSea {
    Land,
    Coast,
    Sea,
}

impl CellValue for LandCoastSea {
    fn same(&self, other: &Self) -> bool {
        self == other
    }
}

fn training_material() -> Grid<LandCoastSea> {
    let mut material = Grid::new(7, 8);
    let rows = [
        [LandCoastSea::Sea; 7],
        [LandCoastSea::Sea; 7],
        [LandCoastSea::Sea; 7],
        [
            LandCoastSea::Coast,
            LandCoastSea::Coast,
            LandCoastSea::Sea,
            LandCoastSea::Sea,
            LandCoastSea::Sea,
            LandCoastSea::Coast,
            LandCoastSea::Coast,
        ],
        [
            LandCoastSea::Land,
            LandCoastSea::Land,
            LandCoastSea::Coast,
            LandCoastSea::Coast,
            LandCoastSea::Coast,
            LandCoastSea::Land,
            LandCoastSea::Land,
        ],
        [LandCoastSea::Land; 7],
        [LandCoastSea::Land; 7],
        [LandCoastSea::Land; 7],
    ];
    for (y, row) in rows.iter().enumerate() {
        for (x, value) in row.iter().enumerate() {
            material.collapse(&Coord2D::new(x, y), *value);
        }
    }
    material
}

#[test]
fn grid_wavefunction_grid_land_coast_sea() {
    let mut wavefunction = Standard2D::new(10, 10);

    let material = training_material();
    wavefunction.learn(&material);
    println!("Training material: a 7 by 8 grid of sea, a coastline, then land");

    let mut solver = Solver::new(wavefunction);

    let output = solver.solve();

    let solved = match &output {
        Some(layout) => {
            let value_grid = layout.detile();
            println!(
                "Solution: a tile grid flattened to {} by {} values",
                value_grid.x(),
                value_grid.y()
            );
            true
        }
        None => {
            println!("No solution");
            false
        }
    };

    println!("Backtracks: {}", solver.get_backtrack_count());

    assert!(solved);

    // Every tile of the solved layout must be one the sample showed.
    let mut sample_tiles: Vec<Tile2D<LandCoastSea, 2, 2>> = Vec::new();
    for y in 0..8 {
        for x in 0..7 {
            if let Some(tile) = material.get_tile::<2, 2>(Coord2D::new(x, y)) {
                sample_tiles.push(tile);
            }
        }
    }
    let layout = output.unwrap();
    for ty in 0..10 {
        for tx in 0..10 {
            match layout.get_cell(&Coord2D::new(tx, ty)) {
                Some(Cell::Collapsed(tile)) => {
                    assert!(sample_tiles.iter().any(|s| s.same(tile)));
                }
                _ => panic!("every cell of the solved layout is collapsed"),
            }
        }
    }
}
