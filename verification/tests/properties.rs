use wave_function_collapse::{
    Cell, CellValue, Coord2D, Function, Grid, Layout, Operation, Tile2D, WeightMap,
    WeightedIterator,
};

fn weights_of(pairs: &[(u64, usize)]) -> WeightMap<u64> {
    let mut m: WeightMap<u64> = WeightMap::new();
    for (v, w) in pairs {
        m.add_count(*v, *w);
    }
    m
}

#[test]
fn weights_stay_positive() {
    // Adding zero weight inserts nothing; a weight lowered to zero drops
    // the entry outright: no weight is ever zero.
    let mut m: WeightMap<u64> = WeightMap::new();
    m.add_count(5, 0);
    assert_eq!(m.get(&5), None);
    assert_eq!(m.len(), 0);

    m.add_count(5, 2);
    assert_eq!(m.get(&5), Some(2));
    m.remove_count(&5, 1);
    assert_eq!(m.get(&5), Some(1));
    m.remove_count(&5, 7);
    assert_eq!(m.get(&5), None);
    assert!(m.is_empty());
}

#[test]
fn add_remove_round_trip() {
    // Raising a weight and lowering it by the same amount restores the map.
    let mut m = weights_of(&[(1, 5), (2, 8)]);
    m.add_count(1, 3);
    m.remove_count(&1, 3);
    assert_eq!(m.get(&1), Some(5));
    assert_eq!(m.get(&2), Some(8));
    assert_eq!(m.len(), 2);

    m.add_count(9, 4);
    m.remove_count(&9, 4);
    assert_eq!(m.get(&9), None);
    assert_eq!(m.len(), 2);
}

#[test]
fn set_get_possibilities_round_trip() {
    let m = weights_of(&[(3, 7), (4, 1), (10, 2)]);
    let mut cell: Cell<u64> = Cell::Collapsed(0);
    cell.set_possibilities(m);
    let back = cell.get_possibilities();
    assert_eq!(back.len(), 3);
    assert_eq!(back.get(&3), Some(7));
    assert_eq!(back.get(&4), Some(1));
    assert_eq!(back.get(&10), Some(2));
    assert_eq!(back.total(), 10);
}

#[test]
fn collapsed_cell_entropy_is_zero() {
    let cell: Cell<u64> = Cell::Collapsed(7);
    assert_eq!(cell.entropy(), 0);
    assert!(cell.is_collapsed());
    assert_eq!(cell.get_value(), Some(7));
}

#[test]
fn entropy_of_equal_weights_is_log2() {
    // k equal-weighted candidates have entropy log2(k) bits, within
    // fixed-point tolerance; for powers of two the value is exact.
    for k in 1..=40u64 {
        let mut m: WeightMap<u64> = WeightMap::new();
        for v in 0..k {
            m.add_count(v, 3);
        }
        let cell: Cell<u64> = Cell::Uncollapsed(m);
        let got = cell.entropy() as f64 / 65536.0;
        let expect = (k as f64).log2();
        assert!(
            (got - expect).abs() < 0.01,
            "entropy of {} equal candidates was {}, expected {}",
            k,
            got,
            expect
        );
    }

    let mut m: WeightMap<u64> = WeightMap::new();
    for v in 0..8u64 {
        m.add_count(v, 4);
    }
    let cell: Cell<u64> = Cell::Uncollapsed(m);
    assert_eq!(cell.entropy(), 3 * 65536);
}

#[test]
fn empty_and_single_superpositions_have_zero_entropy() {
    let empty: Cell<u64> = Cell::Uncollapsed(WeightMap::new());
    assert_eq!(empty.entropy(), 0);
    let single: Cell<u64> = Cell::Uncollapsed(weights_of(&[(3, 44)]));
    assert_eq!(single.entropy(), 0);
}

#[test]
fn collapsed_cells_ignore_edits() {
    // Add and remove operations are no-ops on a collapsed cell.
    let mut cell: Cell<u64> = Cell::Collapsed(7);
    cell.add_possibility(&3);
    cell.add_possibility_count(&3, 10);
    cell.add_possibilities(&weights_of(&[(1, 1), (2, 2)]));
    cell.remove_possibility(&7);
    cell.remove_possibility_count(&7, 5);
    cell.remove_possibilities(&weights_of(&[(7, 1)]));
    cell.merge_cell_possibilities(Operation::Null, Function::Min, &weights_of(&[(1, 1)]));
    assert!(cell.is_collapsed());
    assert_eq!(cell.get_value(), Some(7));
    assert!(cell.get_possibilities().is_empty());
}

#[test]
fn cell_collapse_reports_membership() {
    let mut cell: Cell<u64> = Cell::Uncollapsed(weights_of(&[(1, 1), (2, 1)]));
    assert!(cell.collapse(2));
    assert_eq!(cell.get_value(), Some(2));
    assert!(cell.collapse(2));
    // Collapsing to another value overwrites, but answers false.
    assert!(!cell.collapse(9));
    assert_eq!(cell.get_value(), Some(9));

    let mut other: Cell<u64> = Cell::Uncollapsed(weights_of(&[(1, 1)]));
    assert!(!other.collapse(5));
    assert_eq!(other.get_value(), Some(5));
}

fn merged(op: Operation, func: Function) -> WeightMap<u64> {
    // cell = {1: 2, 2: 3}; parameter = {2: 5, 3: 7}.
    // So 1 is cell-only, 2 is overlap, 3 is parameter-only.
    let mut cell: Cell<u64> = Cell::Uncollapsed(weights_of(&[(1, 2), (2, 3)]));
    cell.merge_cell_possibilities(op, func, &weights_of(&[(2, 5), (3, 7)]));
    cell.get_possibilities()
}

#[test]
fn merge_follows_the_keep_table() {
    // Membership after each operation matches the keep-subset table, and
    // the kept overlap weight is combined by the chosen function.
    let m = merged(Operation::Union, Function::Add);
    assert_eq!((m.get(&1), m.get(&2), m.get(&3)), (Some(2), Some(8), Some(7)));

    let m = merged(Operation::Modification, Function::Add);
    assert_eq!((m.get(&1), m.get(&2), m.get(&3)), (Some(2), Some(8), None));

    let m = merged(Operation::Xor, Function::Add);
    assert_eq!((m.get(&1), m.get(&2), m.get(&3)), (Some(2), None, Some(7)));

    let m = merged(Operation::Subtraction, Function::Add);
    assert_eq!((m.get(&1), m.get(&2), m.get(&3)), (Some(2), None, None));

    let m = merged(Operation::Replacement, Function::Add);
    assert_eq!((m.get(&1), m.get(&2), m.get(&3)), (None, Some(8), Some(7)));

    let m = merged(Operation::Intersection, Function::Add);
    assert_eq!((m.get(&1), m.get(&2), m.get(&3)), (None, Some(8), None));

    let m = merged(Operation::ExclusiveReplacement, Function::Add);
    assert_eq!((m.get(&1), m.get(&2), m.get(&3)), (None, None, Some(7)));

    let m = merged(Operation::Null, Function::Add);
    assert!(m.is_empty());
}

#[test]
fn merge_combines_overlap_weights() {
    assert_eq!(merged(Operation::Intersection, Function::Min).get(&2), Some(3));
    assert_eq!(merged(Operation::Intersection, Function::Max).get(&2), Some(5));
    assert_eq!(merged(Operation::Intersection, Function::A).get(&2), Some(3));
    assert_eq!(merged(Operation::Intersection, Function::B).get(&2), Some(5));
    assert_eq!(merged(Operation::Intersection, Function::Add).get(&2), Some(8));
    // 3 - 5 clamps to zero, and a zero weight drops the entry.
    let m = merged(Operation::Intersection, Function::Subtract);
    assert_eq!(m.get(&2), None);
    assert!(m.is_empty());
}

#[test]
fn weighted_iterator_draws_each_value_once() {
    let pool = weights_of(&[(1, 3), (2, 1), (3, 10), (4, 2), (5, 6)]);
    let mut draws = WeightedIterator::new(pool);
    let mut seen: Vec<u64> = Vec::new();
    while let Some(v) = draws.next() {
        assert!(!seen.contains(&v), "value {} drawn twice", v);
        seen.push(v);
    }
    seen.sort();
    assert_eq!(seen, vec![1, 2, 3, 4, 5]);
    assert_eq!(draws.next(), None);
}

#[test]
fn weighted_iterator_on_empty_pool_yields_nothing() {
    let mut draws: WeightedIterator<u64> = WeightedIterator::new(WeightMap::new());
    assert_eq!(draws.next(), None);
    assert_eq!(draws.next(), None);
}

#[test]
fn weighted_iterator_favors_heavy_values() {
    // Over many fresh pools of {1: 100, 2: 300}, the first draw lands on
    // the heavy value about three quarters of the time.
    let trials = 4000;
    let mut heavy_first = 0;
    for _ in 0..trials {
        let pool = weights_of(&[(1, 100), (2, 300)]);
        let mut draws = WeightedIterator::new(pool);
        if draws.next() == Some(2) {
            heavy_first += 1;
        }
    }
    let share = heavy_first as f64 / trials as f64;
    assert!(
        (share - 0.75).abs() < 0.08,
        "heavy value drawn first with share {}",
        share
    );
}

#[test]
fn coordinates_wrap_at_the_edges() {
    let origin = Coord2D::new(0, 0);
    assert_eq!(origin.up().y(), usize::MAX);
    assert_eq!(origin.up().x(), 0);
    assert_eq!(origin.left().x(), usize::MAX);
    assert_eq!(Coord2D::new(usize::MAX, 3).right().x(), 0);

    // Out-of-range coordinates are legal; the grid simply has no cell there.
    let grid: Grid<u64> = Grid::new(4, 4);
    assert!(grid.get_cell(&origin.up()).is_none());
    assert!(grid.get_cell(&Coord2D::new(4, 0)).is_none());
    assert!(grid.get_cell(&Coord2D::new(3, 3)).is_some());
}

#[test]
fn neighbor_navigation_matches_directions() {
    let c = Coord2D::new(10, 20);
    assert_eq!((c.up().x(), c.up().y()), (10, 19));
    assert_eq!((c.down().x(), c.down().y()), (10, 21));
    assert_eq!((c.left().x(), c.left().y()), (9, 20));
    assert_eq!((c.right().x(), c.right().y()), (11, 20));
    assert_eq!((c.up_left().x(), c.up_left().y()), (9, 19));
    assert_eq!((c.down_right().x(), c.down_right().y()), (11, 21));
    let scaled = c.get_neighbor_scaled(
        wave_function_collapse::Direction::DownLeft,
        3,
        4,
    );
    assert_eq!((scaled.x(), scaled.y()), (7, 24));
    let offset = c.offset(5, 6);
    assert_eq!((offset.x(), offset.y()), (15, 26));
    assert_eq!(c.neighbors().len(), 8);
    assert_eq!(c.neighbor_directions().len(), 8);
    assert_eq!(c.neighbor_directions4().len(), 4);
}

#[test]
fn tile_reports_its_values() {
    let tile: Tile2D<u64, 3, 2> = Tile2D::new([[1, 2, 3], [4, 5, 6]]);
    assert_eq!(tile.x(), 3);
    assert_eq!(tile.y(), 2);
    assert_eq!(tile.get(0, 0), Some(1));
    assert_eq!(tile.get(2, 1), Some(6));
    assert_eq!(tile.get(3, 0), None);
    assert_eq!(tile.get(0, 2), None);
    let values = tile.values();
    assert_eq!(values.len(), 6);
    assert_eq!(values[0], (0, 0, 1));
    assert_eq!(values[5], (2, 1, 6));
    assert!(tile.same(&Tile2D::new([[1, 2, 3], [4, 5, 6]])));
    assert!(!tile.same(&Tile2D::new([[1, 2, 3], [4, 5, 7]])));
}

#[test]
fn get_tile_needs_room_and_collapsed_cells() {
    let mut grid: Grid<u64> = Grid::new(4, 3);
    for y in 0..3usize {
        for x in 0..4usize {
            grid.collapse(&Coord2D::new(x, y), (y * 4 + x) as u64);
        }
    }
    // A block reaching past the grid's edge has no tile.
    assert!(grid.get_tile::<2, 2>(Coord2D::new(3, 0)).is_none());
    assert!(grid.get_tile::<2, 2>(Coord2D::new(0, 2)).is_none());
    let tile = grid.get_tile::<2, 2>(Coord2D::new(1, 1)).unwrap();
    assert_eq!(tile.get(0, 0), Some(5));
    assert_eq!(tile.get(1, 1), Some(10));

    // A block over an uncollapsed cell has no tile either.
    let mut partial: Grid<u64> = Grid::new(3, 3);
    partial.collapse(&Coord2D::new(0, 0), 1);
    partial.collapse(&Coord2D::new(1, 0), 1);
    partial.collapse(&Coord2D::new(0, 1), 1);
    assert!(partial.get_tile::<2, 2>(Coord2D::new(0, 0)).is_none());
}

#[test]
fn detile_writes_tile_values_through() {
    // A fully collapsed tile grid flattens so that the value at (x, y)
    // comes from the tile at (x / 2, y / 2), position (x % 2, y % 2).
    let mut tiles: Grid<Tile2D<u64, 2, 2>> = Grid::new(3, 2);
    for ty in 0..2usize {
        for tx in 0..3usize {
            let base = (ty * 3 + tx) as u64 * 10;
            let tile = Tile2D::new([[base, base + 1], [base + 2, base + 3]]);
            tiles.collapse(&Coord2D::new(tx, ty), tile);
        }
    }
    let flat = tiles.detile();
    assert_eq!(flat.x(), 6);
    assert_eq!(flat.y(), 4);
    for y in 0..4usize {
        for x in 0..6usize {
            let tile_index = (y / 2) * 3 + x / 2;
            let expect = tile_index as u64 * 10 + ((y % 2) * 2 + x % 2) as u64;
            match flat.get_cell(&Coord2D::new(x, y)) {
                Some(Cell::Collapsed(v)) => assert_eq!(*v, expect),
                _ => panic!("cell ({}, {}) should be collapsed", x, y),
            }
        }
    }
}

#[test]
fn detile_of_open_tiles_keeps_the_candidate_values() {
    // An uncollapsed tile cell flattens to superpositions carrying exactly
    // the values the candidate tiles show at each position.
    let mut tiles: Grid<Tile2D<u64, 2, 2>> = Grid::new(1, 1);
    let t1: Tile2D<u64, 2, 2> = Tile2D::new([[1, 2], [3, 4]]);
    let t2: Tile2D<u64, 2, 2> = Tile2D::new([[1, 9], [3, 4]]);
    tiles.add_cell_possibility_count(&Coord2D::new(0, 0), &t1, 2);
    tiles.add_cell_possibility_count(&Coord2D::new(0, 0), &t2, 5);
    let flat = tiles.detile();
    let top_left = flat.get_cell(&Coord2D::new(0, 0)).unwrap().get_possibilities();
    assert_eq!(top_left.len(), 1);
    assert_eq!(top_left.get(&1), Some(7));
    let top_right = flat.get_cell(&Coord2D::new(1, 0)).unwrap().get_possibilities();
    assert_eq!(top_right.len(), 2);
    assert_eq!(top_right.get(&2), Some(2));
    assert_eq!(top_right.get(&9), Some(5));
}

#[test]
fn grid_rows_columns_and_count() {
    let grid: Grid<u64> = Grid::new(5, 3);
    assert_eq!(grid.cell_count(), 15);
    let row = grid.row(1);
    assert_eq!(row.len(), 5);
    assert_eq!((row[2].x(), row[2].y()), (2, 1));
    let col = grid.col(4);
    assert_eq!(col.len(), 3);
    assert_eq!((col[2].x(), col[2].y()), (4, 2));
    assert_eq!(grid.candidates().len(), 15);
}
